use crate::common::bit_lemmas::{lemma_mask_bound, lemma_powers_of_two};
use crate::common::reedsolomon::generic_gf_poly::{poly_monomial, GenericGFPoly};
use crate::error::Error;
use vstd::prelude::*;

verus! {

/// The fields that the barcode families use.
#[derive(Debug, Clone, Copy, PartialEq, Eq, Structural)]
pub enum GenericGFEnum {
    AztecData12,
    AztecData10,
    AztecData6,
    AztecParam,
    QrCodeField256,
    DataMatrixField256,
    AztecData8,
    MaxicodeField64,
}

/// A field of `size` elements, `size` a power of two, with the element 2 as its generator:
/// the powers of 2 and the logarithms to base 2 are held in two tables.
#[derive(Debug)]
pub struct GenericGF {
    exp_table: Vec<u32>,
    log_table: Vec<u32>,
    size: u32,
    primitive: u32,
    generator_base: u32,
}

/// An order a field can have here: a power of two from 2 to 2^30.
pub open spec fn is_field_order(size: u32) -> bool {
    2 <= size <= 0x4000_0000 && size & ((size - 1) as u32) == 0
}

/// Twice `x` in the field: the double, reduced by the primitive polynomial once it
/// reaches the order.
pub open spec fn gf_double(primitive: u32, size: u32, x: u32) -> u32 {
    let d: u32 = (2 * x) as u32;
    if d >= size {
        (d ^ primitive) & ((size - 1) as u32)
    } else {
        d
    }
}

/// The `i`-th power of 2 in the field.
pub open spec fn gf_exp(primitive: u32, size: u32, i: nat) -> u32
    decreases i,
{
    if i == 0 {
        1
    } else {
        gf_double(primitive, size, gf_exp(primitive, size, (i - 1) as nat))
    }
}

/// The largest exponent below `n` whose power of 2 is `a`; zero when there is none.
pub open spec fn gf_log_below(primitive: u32, size: u32, a: u32, n: nat) -> nat
    decreases n,
{
    if n == 0 {
        0
    } else if gf_exp(primitive, size, (n - 1) as nat) == a {
        (n - 1) as nat
    } else {
        gf_log_below(primitive, size, a, (n - 1) as nat)
    }
}

/// The logarithm of `a` to base 2, as the log table holds it.
pub open spec fn gf_log(primitive: u32, size: u32, a: u32) -> nat {
    gf_log_below(primitive, size, a, (size - 1) as nat)
}

/// The product of two elements: zero if either is zero, else the power of 2 whose
/// exponent is the sum of the logarithms, modulo `size - 1`.
pub open spec fn gf_mul(primitive: u32, size: u32, a: u32, b: u32) -> u32 {
    if a == 0 || b == 0 {
        0
    } else {
        gf_exp(
            primitive,
            size,
            ((gf_log(primitive, size, a) + gf_log(primitive, size, b)) as int % (size - 1)) as nat,
        )
    }
}

/// The multiplicative inverse of a nonzero element.
pub open spec fn gf_inv(primitive: u32, size: u32, a: u32) -> u32 {
    gf_exp(primitive, size, (size - 1 - gf_log(primitive, size, a)) as nat)
}

/// Every power of 2 is an element of the field.
pub proof fn lemma_gf_exp_bound(primitive: u32, size: u32, i: nat)
    requires
        is_field_order(size),
    ensures
        gf_exp(primitive, size, i) < size,
    decreases i,
{
    if i > 0 {
        let x = gf_exp(primitive, size, (i - 1) as nat);
        lemma_gf_exp_bound(primitive, size, (i - 1) as nat);
        let d: u32 = (2 * x) as u32;
        lemma_mask_bound((d ^ primitive) as u32, (size - 1) as u32);
    }
}

/// A logarithm found below `n` is below `n`, or zero.
pub proof fn lemma_gf_log_below_bound(primitive: u32, size: u32, a: u32, n: nat)
    ensures
        n > 0 ==> gf_log_below(primitive, size, a, n) < n,
        n == 0 ==> gf_log_below(primitive, size, a, n) == 0,
    decreases n,
{
    if n > 0 {
        lemma_gf_log_below_bound(primitive, size, a, (n - 1) as nat);
    }
}

/// Products are elements of the field.
pub proof fn lemma_gf_mul_bound(primitive: u32, size: u32, a: u32, b: u32)
    requires
        is_field_order(size),
    ensures
        gf_mul(primitive, size, a, b) < size,
{
    if a != 0 && b != 0 {
        lemma_gf_exp_bound(
            primitive,
            size,
            ((gf_log(primitive, size, a) + gf_log(primitive, size, b)) as int % (size - 1)) as nat,
        );
    }
}

/// The product does not depend on the order of its factors.
pub proof fn lemma_gf_mul_commutes(primitive: u32, size: u32, a: u32, b: u32)
    ensures
        gf_mul(primitive, size, a, b) == gf_mul(primitive, size, b, a),
{
}

impl GenericGFEnum {
    /// The field of this name.
    pub fn get(&self) -> (f: GenericGF)
        ensures
            f.wf(),
            f.spec_primitive() == self.spec_primitive(),
            f.spec_size() == self.spec_size(),
            f.spec_generator_base() == self.spec_generator_base(),
    {
        proof {
            lemma_powers_of_two();
        }
        match self {
            GenericGFEnum::AztecData12 => {
                GenericGF::new(0x1069, 4096, 1)
            },
            GenericGFEnum::AztecData10 => {
                GenericGF::new(0x409, 1024, 1)
            },
            GenericGFEnum::AztecData6 => {
                GenericGF::new(0x43, 64, 1)
            },
            GenericGFEnum::AztecParam => {
                GenericGF::new(0x13, 16, 1)
            },
            GenericGFEnum::QrCodeField256 => {
                GenericGF::new(0x011D, 256, 0)
            },
            GenericGFEnum::DataMatrixField256 => {
                GenericGF::new(0x012D, 256, 1)
            },
            GenericGFEnum::AztecData8 => {
                GenericGF::new(0x012D, 256, 1)
            },
            GenericGFEnum::MaxicodeField64 => {
                GenericGF::new(0x43, 64, 1)
            },
        }
    }

    /// The primitive polynomial of the field of this name, its coefficients as bits.
    pub open spec fn spec_primitive(&self) -> u32 {
        match *self {
            GenericGFEnum::AztecData12 => 0x1069,
            GenericGFEnum::AztecData10 => 0x409,
            GenericGFEnum::AztecData6 => 0x43,
            GenericGFEnum::AztecParam => 0x13,
            GenericGFEnum::QrCodeField256 => 0x011D,
            GenericGFEnum::DataMatrixField256 => 0x012D,
            GenericGFEnum::AztecData8 => 0x012D,
            GenericGFEnum::MaxicodeField64 => 0x43,
        }
    }

    /// The order of the field of this name.
    pub open spec fn spec_size(&self) -> u32 {
        match *self {
            GenericGFEnum::AztecData12 => 4096,
            GenericGFEnum::AztecData10 => 1024,
            GenericGFEnum::AztecData6 => 64,
            GenericGFEnum::AztecParam => 16,
            GenericGFEnum::QrCodeField256 => 256,
            GenericGFEnum::DataMatrixField256 => 256,
            GenericGFEnum::AztecData8 => 256,
            GenericGFEnum::MaxicodeField64 => 64,
        }
    }

    /// The exponent of the first root of the generator polynomials of this name.
    pub open spec fn spec_generator_base(&self) -> u32 {
        match *self {
            GenericGFEnum::QrCodeField256 => 0,
            _ => 1,
        }
    }
}

impl GenericGF {
    pub closed spec fn spec_primitive(&self) -> u32 {
        self.primitive
    }

    pub closed spec fn spec_size(&self) -> u32 {
        self.size
    }

    pub closed spec fn spec_generator_base(&self) -> u32 {
        self.generator_base
    }

    /// The tables hold the powers and the logarithms of a field of an order that can be had.
    pub closed spec fn wf(&self) -> bool {
        &&& is_field_order(self.size)
        &&& self.exp_table@.len() == self.size
        &&& self.log_table@.len() == self.size
        &&& forall|i: int|
            0 <= i < self.size ==> #[trigger] self.exp_table@[i] == gf_exp(
                self.primitive,
                self.size,
                i as nat,
            )
        &&& forall|a: int|
            0 <= a < self.size ==> #[trigger] self.log_table@[a] == gf_log(
                self.primitive,
                self.size,
                a as u32,
            )
    }

    /// What well-formedness says of the order.
    pub proof fn lemma_order(&self)
        requires
            self.wf(),
        ensures
            is_field_order(self.spec_size()),
    {
    }

    /// Two fields are the same field: primitive polynomial, order and generator base agree.
    pub open spec fn same_as(&self, other: &GenericGF) -> bool {
        &&& self.spec_primitive() == other.spec_primitive()
        &&& self.spec_size() == other.spec_size()
        &&& self.spec_generator_base() == other.spec_generator_base()
    }

    /// The product of `a` and `b` in this field.
    pub open spec fn mul(&self, a: u32, b: u32) -> u32 {
        gf_mul(self.spec_primitive(), self.spec_size(), a, b)
    }

    /// The inverse of `a` in this field.
    pub open spec fn inv(&self, a: u32) -> u32 {
        gf_inv(self.spec_primitive(), self.spec_size(), a)
    }

    /// The field of order `size` with the given primitive polynomial, whose coefficients
    /// are the bits of `primitive`, the lowest bit the constant term. `b` is the exponent
    /// of the first root of the generator polynomials built over the field.
    pub fn new(primitive: u32, size: u32, b: u32) -> (f: GenericGF)
        requires
            is_field_order(size),
        ensures
            f.wf(),
            f.spec_primitive() == primitive,
            f.spec_size() == size,
            f.spec_generator_base() == b,
    {
        let u_size: usize = size as usize;
        let mut exp_table: Vec<u32> = vec![0u32; u_size];
        let mut log_table: Vec<u32> = vec![0u32; u_size];
        let mut x: u32 = 1;
        let mut i: usize = 0;
        while i < u_size
            invariant
                is_field_order(size),
                u_size == size,
                i <= u_size,
                exp_table@.len() == u_size,
                x == gf_exp(primitive, size, i as nat),
                x < size,
                forall|j: int| 0 <= j < i ==> #[trigger] exp_table@[j] == gf_exp(primitive, size, j as nat),
            decreases u_size - i,
        {
            exp_table[i] = x;
            proof {
                lemma_gf_exp_bound(primitive, size, (i + 1) as nat);
            }
            x = x * 2;
            if x >= size {
                x = x ^ primitive;
                x = x & (size - 1);
            }
            i += 1;
        }
        let mut k: usize = 0;
        while k < u_size - 1
            invariant
                is_field_order(size),
                u_size == size,
                k <= u_size - 1,
                exp_table@.len() == u_size,
                log_table@.len() == u_size,
                forall|j: int| 0 <= j < u_size ==> #[trigger] exp_table@[j] == gf_exp(primitive, size, j as nat),
                forall|a: int|
                    0 <= a < u_size ==> #[trigger] log_table@[a] == gf_log_below(
                        primitive,
                        size,
                        a as u32,
                        k as nat,
                    ),
            decreases u_size - 1 - k,
        {
            proof {
                lemma_gf_exp_bound(primitive, size, k as nat);
            }
            let e: usize = exp_table[k] as usize;
            log_table[e] = k as u32;
            k += 1;
        }
        GenericGF { exp_table, log_table, size, primitive, generator_base: b }
    }

    /// The zero polynomial over this field.
    pub fn get_zero<'a>(&'a self) -> (p: GenericGFPoly<'a>)
        requires
            self.wf(),
        ensures
            p.wf(),
            p.spec_field() == self,
            p@ == seq![0u32],
    {
        GenericGFPoly::constant(self, 0)
    }

    /// The polynomial 1 over this field.
    pub fn get_one<'a>(&'a self) -> (p: GenericGFPoly<'a>)
        requires
            self.wf(),
        ensures
            p.wf(),
            p.spec_field() == self,
            p@ == seq![1u32],
    {
        proof {
            self.lemma_order();
        }
        GenericGFPoly::constant(self, 1)
    }

    /// The polynomial `coefficient * x^degree`. A coefficient that is no element of the
    /// field is refused.
    pub fn build_monomial<'a>(&'a self, degree: usize, coefficient: u32) -> (r: Result<
        GenericGFPoly<'a>,
        Error,
    >)
        requires
            self.wf(),
            degree < GenericGFPoly::MAX_LEN,
        ensures
            r is Ok <==> coefficient < self.spec_size(),
            r matches Ok(p) ==> p.wf() && p.spec_field() == self && p@ == poly_monomial(
                degree as nat,
                coefficient,
            ),
            r matches Err(e) ==> e is IllegalArgumentException,
    {
        if coefficient >= self.size {
            return Err(Error::IllegalArgumentException("build monomial error".to_owned()));
        }
        Ok(GenericGFPoly::monomial(self, degree, coefficient))
    }

    /// Sum and difference of two elements, which are one operation here.
    pub fn add_or_subtract(a: u32, b: u32) -> (r: u32)
        ensures
            r == a ^ b,
    {
        a ^ b
    }

    /// The `a`-th power of 2. An exponent that the table does not hold is refused.
    pub fn exp(&self, a: u32) -> (r: Result<u32, Error>)
        requires
            self.wf(),
        ensures
            r is Ok <==> a < self.spec_size(),
            r matches Ok(v) ==> v == gf_exp(self.spec_primitive(), self.spec_size(), a as nat)
                && v < self.spec_size(),
            r matches Err(e) ==> e is IllegalArgumentException,
    {
        if a >= self.size {
            return Err(Error::IllegalArgumentException("exp error".to_owned()));
        }
        proof {
            lemma_gf_exp_bound(self.primitive, self.size, a as nat);
        }
        Ok(self.exp_table[a as usize])
    }

    /// The logarithm of `a` to base 2. Zero has none, and what is no element is refused.
    pub fn log(&self, a: u32) -> (r: Result<u32, Error>)
        requires
            self.wf(),
        ensures
            r is Ok <==> 0 < a < self.spec_size(),
            r matches Ok(v) ==> v == gf_log(self.spec_primitive(), self.spec_size(), a) && v
                < self.spec_size() - 1,
            r matches Err(e) ==> e is IllegalArgumentException,
    {
        if a == 0 || a >= self.size {
            return Err(Error::IllegalArgumentException("log error".to_owned()));
        }
        proof {
            lemma_gf_log_below_bound(self.primitive, self.size, a, (self.size - 1) as nat);
        }
        Ok(self.log_table[a as usize])
    }

    /// The multiplicative inverse of `a`. Zero has none, and what is no element is refused.
    pub fn inverse(&self, a: u32) -> (r: Result<u32, Error>)
        requires
            self.wf(),
        ensures
            r is Ok <==> 0 < a < self.spec_size(),
            r matches Ok(v) ==> v == self.inv(a) && v < self.spec_size(),
            r matches Err(e) ==> e is ArithmeticException,
    {
        if a == 0 || a >= self.size {
            return Err(Error::ArithmeticException("inverse error".to_owned()));
        }
        proof {
            lemma_gf_log_below_bound(self.primitive, self.size, a, (self.size - 1) as nat);
            lemma_gf_exp_bound(
                self.primitive,
                self.size,
                (self.size - 1 - gf_log(self.primitive, self.size, a)) as nat,
            );
        }
        let len: u32 = self.size - self.log_table[a as usize] - 1;
        Ok(self.exp_table[len as usize])
    }

    /// The product of `a` and `b`. What is no element is refused.
    pub fn multiply(&self, a: u32, b: u32) -> (r: Result<u32, Error>)
        requires
            self.wf(),
        ensures
            r is Ok <==> a < self.spec_size() && b < self.spec_size(),
            r matches Ok(v) ==> v == self.mul(a, b) && v < self.spec_size(),
            r matches Err(e) ==> e is IllegalArgumentException,
    {
        if a >= self.size || b >= self.size {
            return Err(Error::IllegalArgumentException("multiply error".to_owned()));
        }
        Ok(self.multiply_elements(a, b))
    }

    /// The product of two elements.
    pub fn multiply_elements(&self, a: u32, b: u32) -> (v: u32)
        requires
            self.wf(),
            a < self.spec_size(),
            b < self.spec_size(),
        ensures
            v == self.mul(a, b),
            v < self.spec_size(),
    {
        if a == 0 || b == 0 {
            return 0;
        }
        proof {
            lemma_gf_log_below_bound(self.primitive, self.size, a, (self.size - 1) as nat);
            lemma_gf_log_below_bound(self.primitive, self.size, b, (self.size - 1) as nat);
            lemma_gf_mul_bound(self.primitive, self.size, a, b);
        }
        let s: u32 = self.log_table[a as usize] + self.log_table[b as usize];
        self.exp_table[(s % (self.size - 1)) as usize]
    }

    /// The order of the field.
    pub fn get_size(&self) -> (n: u32)
        ensures
            n == self.spec_size(),
    {
        self.size
    }

    /// The exponent of the first root of the generator polynomials over this field.
    pub fn get_generator_base(&self) -> (b: u32)
        ensures
            b == self.spec_generator_base(),
    {
        self.generator_base
    }

    /// The primitive polynomial, its coefficients as bits.
    pub fn get_primitive(&self) -> (p: u32)
        ensures
            p == self.spec_primitive(),
    {
        self.primitive
    }
}

} // verus!
