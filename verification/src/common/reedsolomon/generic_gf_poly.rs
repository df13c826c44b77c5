use crate::common::bit_lemmas::{lemma_xor_bound, lemma_xor_zero};
use crate::common::reedsolomon::generic_gf::{
    gf_inv, gf_mul, is_field_order, lemma_gf_mul_bound, GenericGF,
};
use crate::error::Error;
use vstd::prelude::*;

verus! {

/// A polynomial over a field, held as its coefficients from the highest power down. The
/// leading coefficient is not zero, except in the polynomial zero, which is `[0]`.
#[derive(Debug)]
pub struct GenericGFPoly<'a> {
    field: &'a GenericGF,
    coefficients: Vec<u32>,
}

/// `c` without its leading zeros, of which the last one stays where there is nothing else.
pub open spec fn poly_normalize(c: Seq<u32>) -> Seq<u32>
    decreases c.len(),
{
    if c.len() > 1 && c[0] == 0 {
        poly_normalize(c.drop_first())
    } else {
        c
    }
}

/// The coefficient of `x^d` in `c`; zero beyond the degree.
pub open spec fn poly_coef(c: Seq<u32>, d: int) -> u32 {
    if 0 <= d < c.len() {
        c[c.len() - 1 - d]
    } else {
        0
    }
}

/// Whether every coefficient is an element of a field of order `size`.
pub open spec fn poly_in_field(c: Seq<u32>, size: u32) -> bool {
    forall|i: int| 0 <= i < c.len() ==> #[trigger] c[i] < size
}

/// Whether `c` is the coefficient list of a polynomial in normal form.
pub open spec fn poly_normal(c: Seq<u32>) -> bool {
    c.len() >= 1 && (c.len() == 1 || c[0] != 0)
}

/// The coefficients of the sum of `a` and `b`, power by power, before normalizing.
pub open spec fn poly_add_raw(a: Seq<u32>, b: Seq<u32>) -> Seq<u32> {
    let n = if a.len() >= b.len() {
        a.len()
    } else {
        b.len()
    };
    Seq::new(n, |i: int| poly_coef(a, n - 1 - i) ^ poly_coef(b, n - 1 - i))
}

/// The sum of `a` and `b`, which is also their difference.
pub open spec fn poly_add(a: Seq<u32>, b: Seq<u32>) -> Seq<u32> {
    poly_normalize(poly_add_raw(a, b))
}

/// The share of `a[i]` in the coefficient at place `k` of the product of `a` and `b`.
pub open spec fn conv_term(
    primitive: u32,
    size: u32,
    a: Seq<u32>,
    b: Seq<u32>,
    i: int,
    k: int,
) -> u32 {
    if 0 <= i < a.len() && 0 <= k - i < b.len() {
        gf_mul(primitive, size, a[i], b[k - i])
    } else {
        0
    }
}

/// The shares of the first `m` coefficients of `a` in the coefficient at place `k` of the
/// product of `a` and `b`, summed.
pub open spec fn conv_upto(
    primitive: u32,
    size: u32,
    a: Seq<u32>,
    b: Seq<u32>,
    k: int,
    m: nat,
) -> u32
    decreases m,
{
    if m == 0 {
        0
    } else {
        conv_upto(primitive, size, a, b, k, (m - 1) as nat) ^ conv_term(
            primitive,
            size,
            a,
            b,
            m - 1,
            k,
        )
    }
}

/// The product of `a` and `b`.
pub open spec fn poly_mul(primitive: u32, size: u32, a: Seq<u32>, b: Seq<u32>) -> Seq<u32> {
    if a[0] == 0 || b[0] == 0 {
        seq![0u32]
    } else {
        poly_normalize(
            Seq::new(
                (a.len() + b.len() - 1) as nat,
                |k: int| conv_upto(primitive, size, a, b, k, a.len()),
            ),
        )
    }
}

/// `a` times the element `s`.
pub open spec fn poly_scale(primitive: u32, size: u32, a: Seq<u32>, s: u32) -> Seq<u32> {
    if s == 0 {
        seq![0u32]
    } else if s == 1 {
        a
    } else {
        poly_normalize(Seq::new(a.len(), |i: int| gf_mul(primitive, size, a[i], s)))
    }
}

/// `a` times `coefficient * x^degree`.
pub open spec fn poly_mul_monomial(
    primitive: u32,
    size: u32,
    a: Seq<u32>,
    degree: nat,
    coefficient: u32,
) -> Seq<u32> {
    if coefficient == 0 {
        seq![0u32]
    } else {
        poly_normalize(
            Seq::new(
                a.len() + degree,
                |i: int|
                    if i < a.len() {
                        gf_mul(primitive, size, a[i], coefficient)
                    } else {
                        0u32
                    },
            ),
        )
    }
}

/// The polynomial `coefficient * x^degree`.
pub open spec fn poly_monomial(degree: nat, coefficient: u32) -> Seq<u32> {
    if coefficient == 0 {
        seq![0u32]
    } else {
        Seq::new(degree + 1, |i: int| if i == 0 {
            coefficient
        } else {
            0u32
        })
    }
}

/// `a` times `e`, as the evaluation takes it: times zero is zero and times one changes nothing.
pub open spec fn eval_mul(primitive: u32, size: u32, a: u32, e: u32) -> u32 {
    if a == 0 {
        0
    } else if a == 1 {
        e
    } else {
        gf_mul(primitive, size, a, e)
    }
}

/// The value of the polynomial `c` at `a`, by Horner's rule.
pub open spec fn poly_eval(primitive: u32, size: u32, c: Seq<u32>, a: u32) -> u32
    decreases c.len(),
{
    if c.len() == 0 {
        0
    } else {
        eval_mul(primitive, size, a, poly_eval(primitive, size, c.drop_last(), a)) ^ c.last()
    }
}

/// One step of the long division of `r` by `b`: the quotient `q` gains the term that
/// cancels the leading term of `r`, and `r` loses that multiple of `b`.
pub open spec fn poly_div_step(
    primitive: u32,
    size: u32,
    q: Seq<u32>,
    r: Seq<u32>,
    b: Seq<u32>,
) -> (Seq<u32>, Seq<u32>) {
    let dd = (r.len() - b.len()) as nat;
    let scale = gf_mul(primitive, size, r[0], gf_inv(primitive, size, b[0]));
    (
        poly_add(q, poly_monomial(dd, scale)),
        poly_add(r, poly_mul_monomial(primitive, size, b, dd, scale)),
    )
}

/// The long division of `r` by `b`, continued from the quotient `q`: quotient and
/// remainder, or `None` where a step does not lower the degree of the remainder, which
/// does not happen where the tables are those of a field.
pub open spec fn poly_div(
    primitive: u32,
    size: u32,
    q: Seq<u32>,
    r: Seq<u32>,
    b: Seq<u32>,
) -> Option<(Seq<u32>, Seq<u32>)>
    decreases r.len(),
{
    if r.len() < b.len() || r.len() == 0 || r[0] == 0 {
        Some((q, r))
    } else {
        let (q2, r2) = poly_div_step(primitive, size, q, r, b);
        if r2.len() >= 1 && r2[0] == 0 {
            Some((q2, r2))
        } else if r2.len() < r.len() {
            poly_div(primitive, size, q2, r2, b)
        } else {
            None
        }
    }
}

/// A normalized list is in normal form, no longer than the list, and a part of it.
pub proof fn lemma_normalize(c: Seq<u32>)
    requires
        c.len() >= 1,
    ensures
        poly_normal(poly_normalize(c)),
        poly_normalize(c).len() <= c.len(),
        poly_normalize(c) == c.subrange(c.len() - poly_normalize(c).len(), c.len() as int),
        forall|i: int| 0 <= i < c.len() - poly_normalize(c).len() ==> c[i] == 0,
        poly_normal(c) ==> poly_normalize(c) == c,
    decreases c.len(),
{
    if c.len() > 1 && c[0] == 0 {
        let d = c.drop_first();
        lemma_normalize(d);
        let n = poly_normalize(d);
        assert(d.subrange(d.len() - n.len(), d.len() as int) =~= c.subrange(
            c.len() - n.len(),
            c.len() as int,
        ));
        assert forall|i: int| 0 <= i < c.len() - n.len() implies c[i] == 0 by {
            if i > 0 {
                assert(c[i] == d[i - 1]);
            }
        }
    } else {
        assert(c.subrange(0, c.len() as int) =~= c);
    }
}

/// Normalizing keeps the coefficients inside the field.
pub proof fn lemma_normalize_in_field(c: Seq<u32>, size: u32)
    requires
        c.len() >= 1,
        poly_in_field(c, size),
    ensures
        poly_in_field(poly_normalize(c), size),
{
    lemma_normalize(c);
}

/// The partial sums of a product coefficient are elements of the field.
pub proof fn lemma_conv_bound(primitive: u32, size: u32, a: Seq<u32>, b: Seq<u32>, k: int, m: nat)
    requires
        is_field_order(size),
    ensures
        conv_upto(primitive, size, a, b, k, m) < size,
        conv_term(primitive, size, a, b, m as int, k) < size,
    decreases m,
{
    if 0 <= m < a.len() && 0 <= k - m < b.len() {
        lemma_gf_mul_bound(primitive, size, a[m as int], b[k - m]);
    }
    if m > 0 {
        lemma_conv_bound(primitive, size, a, b, k, (m - 1) as nat);
        lemma_xor_bound(
            conv_upto(primitive, size, a, b, k, (m - 1) as nat),
            conv_term(primitive, size, a, b, m - 1, k),
            size,
        );
    }
}

impl<'a> View for GenericGFPoly<'a> {
    type V = Seq<u32>;

    /// The coefficients, from the highest power down.
    closed spec fn view(&self) -> Seq<u32> {
        self.coefficients@
    }
}

impl<'a> Clone for GenericGFPoly<'a> {
    fn clone(&self) -> (r: Self)
        ensures
            r@ == self@,
            r.spec_field() == self.spec_field(),
            self.wf() ==> r.wf(),
    {
        let mut c: Vec<u32> = Vec::new();
        let mut i: usize = 0;
        while i < self.coefficients.len()
            invariant
                i <= self.coefficients@.len(),
                c@ == self.coefficients@.subrange(0, i as int),
            decreases self.coefficients@.len() - i,
        {
            c.push(self.coefficients[i]);
            proof {
                assert(c@ =~= self.coefficients@.subrange(0, i + 1));
            }
            i += 1;
        }
        proof {
            assert(c@ =~= self.coefficients@);
        }
        GenericGFPoly { field: self.field, coefficients: c }
    }
}

impl<'a> GenericGFPoly<'a> {
    /// The longest coefficient list a polynomial can have.
    pub const MAX_LEN: usize = 0x7FFF_FFFF;

    /// The field of the coefficients.
    pub closed spec fn spec_field(&self) -> &'a GenericGF {
        self.field
    }

    /// The field is well formed, the coefficients are elements of it, and the list is in
    /// normal form and of a length that can be held.
    pub open spec fn wf(&self) -> bool {
        &&& self.spec_field().wf()
        &&& poly_normal(self@)
        &&& self@.len() <= GenericGFPoly::MAX_LEN
        &&& poly_in_field(self@, self.spec_field().spec_size())
    }

    /// The polynomial with the given coefficients, highest power first; leading zeros
    /// are dropped. An empty list is refused, and so is a coefficient that is no element of
    /// the field or a list too long to hold.
    pub fn new(field: &'a GenericGF, coefficients: Vec<u32>) -> (r: Result<GenericGFPoly<'a>, Error>)
        requires
            field.wf(),
        ensures
            r is Ok <==> (1 <= coefficients@.len() <= GenericGFPoly::MAX_LEN && poly_in_field(
                coefficients@,
                field.spec_size(),
            )),
            r matches Ok(p) ==> p.wf() && p.spec_field() == field && p@ == poly_normalize(
                coefficients@,
            ),
            r matches Err(e) ==> e is IllegalArgumentException,
    {
        let n = coefficients.len();
        if n == 0 {
            return Err(Error::IllegalArgumentException("coefficients length is zero".to_owned()));
        }
        if n > GenericGFPoly::MAX_LEN {
            return Err(Error::IllegalArgumentException("too many coefficients".to_owned()));
        }
        let size = field.get_size();
        let mut i: usize = 0;
        while i < n
            invariant
                i <= n,
                n == coefficients@.len(),
                size == field.spec_size(),
                forall|j: int| 0 <= j < i ==> #[trigger] coefficients@[j] < size,
            decreases n - i,
        {
            if coefficients[i] >= size {
                assert(!(coefficients@[i as int] < size));
                return Err(
                    Error::IllegalArgumentException(
                        "coefficient is not an element of the field".to_owned(),
                    ),
                );
            }
            i += 1;
        }
        Ok(GenericGFPoly::from_elements(field, coefficients))
    }

    /// The polynomial with the given coefficients, which are elements of the field.
    pub fn from_elements(field: &'a GenericGF, coefficients: Vec<u32>) -> (p: GenericGFPoly<'a>)
        requires
            field.wf(),
            1 <= coefficients@.len() <= GenericGFPoly::MAX_LEN,
            poly_in_field(coefficients@, field.spec_size()),
        ensures
            p.wf(),
            p.spec_field() == field,
            p@ == poly_normalize(coefficients@),
    {
        let n = coefficients.len();
        proof {
            lemma_normalize(coefficients@);
            lemma_normalize_in_field(coefficients@, field.spec_size());
        }
        if n > 1 && coefficients[0] == 0 {
            let mut first: usize = 1;
            while first < n - 1 && coefficients[first] == 0
                invariant
                    1 <= first <= n - 1,
                    n == coefficients@.len(),
                    poly_normalize(coefficients@) == poly_normalize(
                        coefficients@.subrange(first as int, n as int),
                    ),
                decreases n - first,
            {
                proof {
                    let s = coefficients@.subrange(first as int, n as int);
                    assert(s.drop_first() =~= coefficients@.subrange(first + 1, n as int));
                }
                first += 1;
            }
            let mut c: Vec<u32> = Vec::new();
            let mut i: usize = first;
            while i < n
                invariant
                    first <= i <= n,
                    n == coefficients@.len(),
                    c@ == coefficients@.subrange(first as int, i as int),
                decreases n - i,
            {
                c.push(coefficients[i]);
                proof {
                    assert(c@ =~= coefficients@.subrange(first as int, i + 1));
                }
                i += 1;
            }
            GenericGFPoly { field, coefficients: c }
        } else {
            GenericGFPoly { field, coefficients }
        }
    }

    /// The constant polynomial `value`.
    pub fn constant(field: &'a GenericGF, value: u32) -> (p: GenericGFPoly<'a>)
        requires
            field.wf(),
            value < field.spec_size(),
        ensures
            p.wf(),
            p.spec_field() == field,
            p@ == seq![value],
    {
        let p = GenericGFPoly { field, coefficients: vec![value] };
        proof {
            assert(p@ =~= seq![value]);
        }
        p
    }

    /// The coefficients, from the highest power down.
    pub fn get_coefficients(&self) -> (c: &Vec<u32>)
        ensures
            c@ == self@,
    {
        &self.coefficients
    }

    /// The number of coefficients: one more than the degree.
    pub fn coefficients_len(&self) -> (n: usize)
        ensures
            n == self@.len(),
    {
        self.coefficients.len()
    }

    /// The degree of the polynomial.
    pub fn get_degree(&self) -> (d: usize)
        requires
            self.wf(),
        ensures
            d == self@.len() - 1,
    {
        self.coefficients.len() - 1
    }

    /// Whether this is the polynomial zero.
    pub fn is_zero(&self) -> (z: bool)
        requires
            self.wf(),
        ensures
            z == (self@[0] == 0),
            z ==> self@ == seq![0u32],
    {
        proof {
            if self@[0] == 0 {
                assert(self@ =~= seq![0u32]);
            }
        }
        self.coefficients[0] == 0
    }

    /// The coefficient of `x^degree`; zero beyond the degree of the polynomial.
    pub fn get_coefficient(&self, degree: usize) -> (c: u32)
        requires
            self.wf(),
        ensures
            c == poly_coef(self@, degree as int),
            c < self.spec_field().spec_size(),
    {
        proof {
            self.spec_field().lemma_order();
        }
        if degree >= self.coefficients.len() {
            0
        } else {
            self.coefficients[self.coefficients.len() - 1 - degree]
        }
    }

    /// The value of the polynomial at `a`. What is no element of the field is refused.
    pub fn evaluate_at(&self, a: u32) -> (r: Result<u32, Error>)
        requires
            self.wf(),
        ensures
            r is Ok <==> a < self.spec_field().spec_size(),
            r matches Ok(v) ==> v == poly_eval(
                self.spec_field().spec_primitive(),
                self.spec_field().spec_size(),
                self@,
                a,
            ) && v < self.spec_field().spec_size(),
            r matches Err(e) ==> e is IllegalArgumentException,
    {
        let size = self.field.get_size();
        if a >= size {
            return Err(Error::IllegalArgumentException("evaluate at error".to_owned()));
        }
        let ghost p = self.field.spec_primitive();
        proof {
            self.field.lemma_order();
        }
        let n = self.coefficients.len();
        let mut result: u32 = 0;
        let mut i: usize = 0;
        while i < n
            invariant
                self.wf(),
                i <= n,
                n == self@.len(),
                size == self.field.spec_size(),
                p == self.field.spec_primitive(),
                is_field_order(size),
                a < size,
                result < size,
                result == poly_eval(p, size, self@.subrange(0, i as int), a),
            decreases n - i,
        {
            let c = self.coefficients[i];
            let m: u32 = if a == 0 {
                0
            } else if a == 1 {
                result
            } else {
                self.field.multiply_elements(a, result)
            };
            proof {
                lemma_xor_bound(m, c, size);
                let s = self@.subrange(0, i + 1);
                assert(s.drop_last() =~= self@.subrange(0, i as int));
                assert(s.last() == c);
            }
            result = GenericGF::add_or_subtract(m, c);
            i += 1;
        }
        proof {
            assert(self@.subrange(0, n as int) =~= self@);
        }
        Ok(result)
    }

    /// The sum of this polynomial and `other`, which is also their difference. Polynomials
    /// over different fields are refused.
    pub fn add_or_subtract(&self, other: &GenericGFPoly<'a>) -> (r: Result<GenericGFPoly<'a>, Error>)
        requires
            self.wf(),
            other.wf(),
        ensures
            r is Ok <==> self.spec_field().same_as(other.spec_field()),
            r matches Ok(p) ==> p.wf() && p.spec_field() == self.spec_field() && p@ == poly_add(
                self@,
                other@,
            ),
            r matches Err(e) ==> e is IllegalArgumentException,
    {
        if !self.same_field(other) {
            return Err(
                Error::IllegalArgumentException(
                    "GenericGFPolys do not have same GenericGF field".to_owned(),
                ),
            );
        }
        Ok(self.sum(other))
    }

    /// Whether `other` is over the same field.
    pub fn same_field(&self, other: &GenericGFPoly<'a>) -> (b: bool)
        ensures
            b == self.spec_field().same_as(other.spec_field()),
    {
        self.field.get_primitive() == other.field.get_primitive() && self.field.get_size()
            == other.field.get_size() && self.field.get_generator_base()
            == other.field.get_generator_base()
    }

    /// The sum of two polynomials over fields of the same order.
    pub fn sum(&self, other: &GenericGFPoly<'a>) -> (p: GenericGFPoly<'a>)
        requires
            self.wf(),
            other.wf(),
            self.spec_field().spec_size() == other.spec_field().spec_size(),
        ensures
            p.wf(),
            p.spec_field() == self.spec_field(),
            p@ == poly_add(self@, other@),
            p@.len() <= self@.len() || p@.len() <= other@.len(),
    {
        let la = self.coefficients.len();
        let lb = other.coefficients.len();
        let n = if la >= lb {
            la
        } else {
            lb
        };
        let ghost size = self.field.spec_size();
        proof {
            self.field.lemma_order();
        }
        let mut sum_diff: Vec<u32> = Vec::new();
        let mut i: usize = 0;
        while i < n
            invariant
                self.wf(),
                other.wf(),
                size == self.field.spec_size(),
                size == other.field.spec_size(),
                is_field_order(size),
                la == self@.len(),
                lb == other@.len(),
                n == poly_add_raw(self@, other@).len(),
                n >= la,
                n >= lb,
                i <= n,
                sum_diff@.len() == i,
                forall|j: int| 0 <= j < i ==> #[trigger] sum_diff@[j] == poly_add_raw(self@, other@)[j],
                forall|j: int| 0 <= j < i ==> #[trigger] sum_diff@[j] < size,
            decreases n - i,
        {
            let x: u32 = if i >= n - la {
                self.coefficients[i - (n - la)]
            } else {
                0
            };
            let y: u32 = if i >= n - lb {
                other.coefficients[i - (n - lb)]
            } else {
                0
            };
            proof {
                lemma_xor_bound(x, y, size);
            }
            sum_diff.push(x ^ y);
            i += 1;
        }
        proof {
            assert(sum_diff@ =~= poly_add_raw(self@, other@));
            lemma_normalize(sum_diff@);
        }
        GenericGFPoly::from_elements(self.field, sum_diff)
    }

    /// The product of this polynomial and `other`. Polynomials over different fields are
    /// refused.
    pub fn multiply_by_other(&self, other: &GenericGFPoly<'a>) -> (r: Result<
        GenericGFPoly<'a>,
        Error,
    >)
        requires
            self.wf(),
            other.wf(),
            self@.len() + other@.len() - 1 <= GenericGFPoly::MAX_LEN,
        ensures
            r is Ok <==> self.spec_field().same_as(other.spec_field()),
            r matches Ok(p) ==> p.wf() && p.spec_field() == self.spec_field() && p@ == poly_mul(
                self.spec_field().spec_primitive(),
                self.spec_field().spec_size(),
                self@,
                other@,
            ) && p@.len() <= self@.len() + other@.len() - 1,
            r matches Err(e) ==> e is IllegalArgumentException,
    {
        if !self.same_field(other) {
            return Err(
                Error::IllegalArgumentException(
                    "GenericGFPolys do not have same GenericGF field".to_owned(),
                ),
            );
        }
        if self.is_zero() || other.is_zero() {
            return Ok(self.field.get_zero());
        }
        let ghost p = self.field.spec_primitive();
        let ghost size = self.field.spec_size();
        proof {
            self.field.lemma_order();
        }
        let la = self.coefficients.len();
        let lb = other.coefficients.len();
        let mut product: Vec<u32> = vec![0u32; la + lb - 1];
        let mut i: usize = 0;
        while i < la
            invariant
                self.wf(),
                other.wf(),
                p == self.field.spec_primitive(),
                size == self.field.spec_size(),
                size == other.field.spec_size(),
                is_field_order(size),
                la == self@.len(),
                lb == other@.len(),
                la + lb - 1 <= GenericGFPoly::MAX_LEN,
                i <= la,
                product@.len() == la + lb - 1,
                forall|k: int|
                    0 <= k < la + lb - 1 ==> #[trigger] product@[k] == conv_upto(
                        p,
                        size,
                        self@,
                        other@,
                        k,
                        i as nat,
                    ),
            decreases la - i,
        {
            let a_coeff = self.coefficients[i];
            let mut j: usize = 0;
            while j < lb
                invariant
                    self.wf(),
                    other.wf(),
                    p == self.field.spec_primitive(),
                    size == self.field.spec_size(),
                    size == other.field.spec_size(),
                    is_field_order(size),
                    la == self@.len(),
                    lb == other@.len(),
                    la + lb - 1 <= GenericGFPoly::MAX_LEN,
                    i < la,
                    j <= lb,
                    a_coeff == self@[i as int],
                    product@.len() == la + lb - 1,
                    forall|k: int|
                        0 <= k < la + lb - 1 ==> #[trigger] product@[k] == if i <= k < i + j {
                            conv_upto(p, size, self@, other@, k, (i + 1) as nat)
                        } else {
                            conv_upto(p, size, self@, other@, k, i as nat)
                        },
                decreases lb - j,
            {
                let t = self.field.multiply_elements(a_coeff, other.coefficients[j]);
                let old_value = product[i + j];
                proof {
                    assert(t == conv_term(p, size, self@, other@, i as int, i + j));
                }
                product[i + j] = GenericGF::add_or_subtract(old_value, t);
                j += 1;
            }
            proof {
                assert forall|k: int| 0 <= k < la + lb - 1 implies #[trigger] product@[k]
                    == conv_upto(p, size, self@, other@, k, (i + 1) as nat) by {
                    if !(i <= k < i + lb) {
                        lemma_xor_zero(conv_upto(p, size, self@, other@, k, i as nat));
                    }
                }
            }
            i += 1;
        }
        proof {
            assert forall|k: int| 0 <= k < product@.len() implies #[trigger] product@[k] < size by {
                lemma_conv_bound(p, size, self@, other@, k, la as nat);
            }
            assert(product@ =~= Seq::new(
                (la + lb - 1) as nat,
                |k: int| conv_upto(p, size, self@, other@, k, self@.len()),
            ));
            lemma_normalize(product@);
        }
        Ok(GenericGFPoly::from_elements(self.field, product))
    }

    /// This polynomial times the element `scalar`. What is no element is refused.
    pub fn multiply_by_scalar(&self, scalar: u32) -> (r: Result<GenericGFPoly<'a>, Error>)
        requires
            self.wf(),
        ensures
            r is Ok <==> scalar < self.spec_field().spec_size(),
            r matches Ok(p) ==> p.wf() && p.spec_field() == self.spec_field() && p@ == poly_scale(
                self.spec_field().spec_primitive(),
                self.spec_field().spec_size(),
                self@,
                scalar,
            ),
            r matches Err(e) ==> e is IllegalArgumentException,
    {
        if scalar >= self.field.get_size() {
            return Err(Error::IllegalArgumentException("multiply by scalar error".to_owned()));
        }
        if scalar == 0 {
            return Ok(self.field.get_zero());
        }
        if scalar == 1 {
            return Ok(self.clone());
        }
        let ghost p = self.field.spec_primitive();
        let ghost size = self.field.spec_size();
        let n = self.coefficients.len();
        let mut product: Vec<u32> = Vec::new();
        let mut i: usize = 0;
        while i < n
            invariant
                self.wf(),
                p == self.field.spec_primitive(),
                size == self.field.spec_size(),
                scalar < size,
                n == self@.len(),
                i <= n,
                product@.len() == i,
                forall|j: int| 0 <= j < i ==> #[trigger] product@[j] == gf_mul(p, size, self@[j], scalar),
                forall|j: int| 0 <= j < i ==> #[trigger] product@[j] < size,
            decreases n - i,
        {
            product.push(self.field.multiply_elements(self.coefficients[i], scalar));
            i += 1;
        }
        proof {
            assert(product@ =~= Seq::new(self@.len(), |i: int| gf_mul(p, size, self@[i], scalar)));
        }
        Ok(GenericGFPoly::from_elements(self.field, product))
    }

    /// This polynomial times `coefficient * x^degree`. A coefficient that is no element of
    /// the field is refused.
    pub fn multiply_by_monomial(&self, degree: usize, coefficient: u32) -> (r: Result<
        GenericGFPoly<'a>,
        Error,
    >)
        requires
            self.wf(),
            self@.len() + degree <= GenericGFPoly::MAX_LEN,
        ensures
            r is Ok <==> coefficient < self.spec_field().spec_size(),
            r matches Ok(p) ==> p.wf() && p.spec_field() == self.spec_field() && p@
                == poly_mul_monomial(
                self.spec_field().spec_primitive(),
                self.spec_field().spec_size(),
                self@,
                degree as nat,
                coefficient,
            ),
            r matches Err(e) ==> e is IllegalArgumentException,
    {
        if coefficient >= self.field.get_size() {
            return Err(Error::IllegalArgumentException("multiply by monomial error".to_owned()));
        }
        Ok(self.times_monomial(degree, coefficient))
    }

    /// This polynomial times `coefficient * x^degree`, the coefficient an element of the field.
    pub fn times_monomial(&self, degree: usize, coefficient: u32) -> (p: GenericGFPoly<'a>)
        requires
            self.wf(),
            self@.len() + degree <= GenericGFPoly::MAX_LEN,
            coefficient < self.spec_field().spec_size(),
        ensures
            p.wf(),
            p.spec_field() == self.spec_field(),
            p@ == poly_mul_monomial(
                self.spec_field().spec_primitive(),
                self.spec_field().spec_size(),
                self@,
                degree as nat,
                coefficient,
            ),
    {
        if coefficient == 0 {
            return self.field.get_zero();
        }
        let ghost pr = self.field.spec_primitive();
        let ghost size = self.field.spec_size();
        let n = self.coefficients.len();
        let total = n + degree;
        let mut product: Vec<u32> = Vec::new();
        let mut i: usize = 0;
        while i < total
            invariant
                self.wf(),
                pr == self.field.spec_primitive(),
                size == self.field.spec_size(),
                coefficient < size,
                n == self@.len(),
                total == n + degree,
                i <= total,
                product@.len() == i,
                forall|j: int|
                    0 <= j < i ==> #[trigger] product@[j] == if j < n {
                        gf_mul(pr, size, self@[j], coefficient)
                    } else {
                        0u32
                    },
                forall|j: int| 0 <= j < i ==> #[trigger] product@[j] < size,
            decreases total - i,
        {
            if i < n {
                product.push(self.field.multiply_elements(self.coefficients[i], coefficient));
            } else {
                product.push(0);
            }
            i += 1;
        }
        proof {
            assert(product@ =~= Seq::new(
                self@.len() + degree as nat,
                |i: int|
                    if i < self@.len() {
                        gf_mul(pr, size, self@[i], coefficient)
                    } else {
                        0u32
                    },
            ));
        }
        GenericGFPoly::from_elements(self.field, product)
    }

    /// The polynomial `coefficient * x^degree` over `field`.
    pub fn monomial(field: &'a GenericGF, degree: usize, coefficient: u32) -> (p: GenericGFPoly<'a>)
        requires
            field.wf(),
            degree < GenericGFPoly::MAX_LEN,
            coefficient < field.spec_size(),
        ensures
            p.wf(),
            p.spec_field() == field,
            p@ == poly_monomial(degree as nat, coefficient),
            p@.len() <= degree + 1,
    {
        if coefficient == 0 {
            return field.get_zero();
        }
        let mut coefficients: Vec<u32> = vec![0u32; degree + 1];
        coefficients[0] = coefficient;
        proof {
            assert(coefficients@ =~= poly_monomial(degree as nat, coefficient));
            lemma_normalize(coefficients@);
            field.lemma_order();
        }
        GenericGFPoly::from_elements(field, coefficients)
    }

    /// Quotient and remainder, in this order, of the long division of this polynomial by
    /// `other`. Polynomials over different fields and the divisor zero are refused; a
    /// division that a step does not bring forward ends in `IllegalStateException`.
    pub fn divide(&self, other: &GenericGFPoly<'a>) -> (r: Result<Vec<GenericGFPoly<'a>>, Error>)
        requires
            self.wf(),
            other.wf(),
        ensures
            (r matches Err(e) && e is IllegalArgumentException) <==> (!self.spec_field().same_as(
                other.spec_field(),
            ) || other@[0] == 0),
            self.spec_field().same_as(other.spec_field()) && other@[0] != 0 ==> match poly_div(
                self.spec_field().spec_primitive(),
                self.spec_field().spec_size(),
                seq![0u32],
                self@,
                other@,
            ) {
                Some((q, rem)) => r matches Ok(v) && v@.len() == 2 && v@[0]@ == q && v@[1]@ == rem
                    && v@[0].wf() && v@[1].wf() && v@[0].spec_field() == self.spec_field()
                    && v@[1].spec_field() == self.spec_field() && v@[1]@.len() <= self@.len()
                    && (v@[0]@.len() == 1 || v@[0]@.len() <= self@.len() - other@.len() + 1),
                None => r matches Err(e) && e is IllegalStateException,
            },
    {
        if !self.same_field(other) {
            return Err(
                Error::IllegalArgumentException(
                    "GenericGFPolys do not have same GenericGF field".to_owned(),
                ),
            );
        }
        if other.is_zero() {
            return Err(Error::IllegalArgumentException("Divide by 0".to_owned()));
        }
        let ghost pr = self.field.spec_primitive();
        let ghost size = self.field.spec_size();
        let mut quotient = self.field.get_zero();
        let mut remainder = self.clone();
        let denominator_leading_term = other.coefficients[0];
        let inverse_denominator_leading_term = match self.field.inverse(denominator_leading_term) {
            Ok(v) => v,
            Err(e) => {
                return Err(e);
            },
        };
        while remainder.coefficients.len() >= other.coefficients.len() && !remainder.is_zero()
            invariant
                self.wf(),
                other.wf(),
                quotient.wf(),
                remainder.wf(),
                quotient.spec_field() == self.spec_field(),
                remainder.spec_field() == self.spec_field(),
                self.spec_field().same_as(other.spec_field()),
                pr == self.field.spec_primitive(),
                size == self.field.spec_size(),
                other@[0] != 0,
                inverse_denominator_leading_term == gf_inv(pr, size, other@[0]),
                inverse_denominator_leading_term < size,
                remainder@.len() <= self@.len(),
                quotient@.len() == 1 || quotient@.len() <= self@.len() - other@.len() + 1,
                poly_div(pr, size, seq![0u32], self@, other@) == poly_div(
                    pr,
                    size,
                    quotient@,
                    remainder@,
                    other@,
                ),
            decreases
                    if remainder@[0] == 0 {
                        0
                    } else {
                        remainder@.len()
                    },
        {
            let degree_difference = remainder.coefficients.len() - other.coefficients.len();
            let scale = self.field.multiply_elements(
                remainder.coefficients[0],
                inverse_denominator_leading_term,
            );
            let term = other.times_monomial(degree_difference, scale);
            let iteration_quotient = GenericGFPoly::monomial(self.field, degree_difference, scale);
            let next_quotient = quotient.sum(&iteration_quotient);
            let next_remainder = remainder.sum(&term);
            let stuck = !next_remainder.is_zero() && next_remainder.coefficients.len()
                >= remainder.coefficients.len();
            if stuck {
                return Err(
                    Error::IllegalStateException(
                        "Division algorithm failed to reduce polynomial".to_owned(),
                    ),
                );
            }
            quotient = next_quotient;
            remainder = next_remainder;
        }
        let mut v: Vec<GenericGFPoly<'a>> = Vec::new();
        v.push(quotient);
        v.push(remainder);
        Ok(v)
    }
}

} // verus!
