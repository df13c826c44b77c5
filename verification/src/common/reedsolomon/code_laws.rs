use crate::common::bit_lemmas::{lemma_powers_of_two, lemma_xor_bound};
use crate::common::reedsolomon::generic_gf::{
    gf_exp, gf_inv, gf_log, gf_mul, lemma_gf_exp_bound, lemma_gf_mul_bound,
    lemma_gf_mul_commutes,
};
use crate::common::reedsolomon::generic_gf_poly::{
    conv_term, conv_upto, lemma_normalize, lemma_normalize_in_field, poly_add, poly_add_raw,
    poly_coef, poly_div, poly_div_step, poly_eval, poly_in_field, poly_mul, poly_mul_monomial,
    poly_normal, poly_normalize,
};
use crate::common::reedsolomon::qr_field::{
    lemma_qr_associates, lemma_qr_distributes, lemma_qr_inverse, lemma_qr_one, QR_PRIMITIVE,
    QR_SIZE,
};
use crate::common::reedsolomon::reed_solomon_decoder::{rs_decoded, rs_syndromes, FieldSpec};
use crate::common::reedsolomon::reed_solomon_encoder::{rs_generator, rs_padded, rs_parity};
use crate::error::ErrorKind;
use vstd::prelude::*;

verus! {

/// The product of two elements of the field of the QR code.
pub open spec fn qr_mul(a: u32, b: u32) -> u32 {
    gf_mul(QR_PRIMITIVE, QR_SIZE, a, b)
}

/// The value at `a` of the polynomial with the coefficients `c` over the field of the
/// QR code.
pub open spec fn qr_eval(c: Seq<u32>, a: u32) -> u32 {
    poly_eval(QR_PRIMITIVE, QR_SIZE, c, a)
}

/// Whether every one of `c` is an element of the field of the QR code.
pub open spec fn qr_elements(c: Seq<u32>) -> bool {
    poly_in_field(c, QR_SIZE)
}

/// What holds of sums, which are exclusive ors: their order does not count, zero changes
/// nothing, and an element is its own negative.
proof fn lemma_sums(p: u32, q: u32, r: u32, s: u32)
    by (bit_vector)
    ensures
        (p ^ q) ^ (r ^ s) == (p ^ r) ^ (q ^ s),
        p ^ 0 == p,
        0 ^ p == p,
        p ^ p == 0,
        (p ^ q) ^ q == p,
        p ^ q == q ^ p,
{
}

/// Products in the field of the QR code are elements of it, and so are sums.
pub proof fn lemma_qr_closed(a: u32, b: u32)
    requires
        a < 256,
        b < 256,
    ensures
        qr_mul(a, b) < 256,
        a ^ b < 256,
        qr_mul(a, b) == qr_mul(b, a),
        qr_mul(a, 0) == 0,
        qr_mul(0, a) == 0,
        qr_mul(a, 1) == a,
        qr_mul(1, a) == a,
{
    lemma_powers_of_two();
    lemma_gf_mul_bound(QR_PRIMITIVE, QR_SIZE, a, b);
    lemma_xor_bound(a, b, 256);
    lemma_gf_mul_commutes(QR_PRIMITIVE, QR_SIZE, a, b);
    lemma_gf_mul_commutes(QR_PRIMITIVE, QR_SIZE, a, 1);
    lemma_qr_one(a);
}

/// The value of a polynomial by Horner's rule: the value of the polynomial without its
/// constant term, times `a`, and the constant term.
pub proof fn lemma_eval_step(c: Seq<u32>, a: u32)
    requires
        qr_elements(c),
        a < 256,
    ensures
        qr_eval(c, a) < 256,
        c.len() > 0 ==> qr_eval(c, a) == qr_mul(a, qr_eval(c.drop_last(), a)) ^ c.last(),
        c.len() == 0 ==> qr_eval(c, a) == 0,
    decreases c.len(),
{
    if c.len() > 0 {
        lemma_eval_step(c.drop_last(), a);
        let rest = qr_eval(c.drop_last(), a);
        assert(c[c.len() - 1] < QR_SIZE);
        lemma_qr_closed(a, rest);
        lemma_qr_closed(rest, a);
        lemma_qr_closed(qr_mul(a, rest), c.last());
    }
}

/// A polynomial keeps its values where a zero is put before its coefficients.
pub proof fn lemma_eval_leading_zero(c: Seq<u32>, a: u32)
    requires
        qr_elements(c),
        a < 256,
    ensures
        qr_eval(seq![0u32] + c, a) == qr_eval(c, a),
    decreases c.len(),
{
    let longer = seq![0u32] + c;
    assert(qr_elements(longer));
    lemma_eval_step(longer, a);
    lemma_eval_step(c, a);
    if c.len() == 0 {
        assert(longer.drop_last() =~= Seq::<u32>::empty());
        lemma_eval_step(longer.drop_last(), a);
        lemma_qr_closed(a, 0);
        lemma_sums(0, 0, 0, 0);
    } else {
        lemma_eval_leading_zero(c.drop_last(), a);
        assert(longer.drop_last() =~= seq![0u32] + c.drop_last());
    }
}

/// A polynomial keeps its values where it is brought to its normal form.
pub proof fn lemma_eval_normalize(c: Seq<u32>, a: u32)
    requires
        qr_elements(c),
        a < 256,
    ensures
        qr_eval(poly_normalize(c), a) == qr_eval(c, a),
        qr_elements(poly_normalize(c)),
    decreases c.len(),
{
    if c.len() > 1 && c[0] == 0 {
        let rest = c.drop_first();
        lemma_eval_normalize(rest, a);
        lemma_eval_leading_zero(rest, a);
        assert(seq![0u32] + rest =~= c);
    }
}

/// The coefficients of `c` behind as many zeros as make `n` coefficients.
pub open spec fn padded_to(c: Seq<u32>, n: nat) -> Seq<u32> {
    Seq::new(n, |i: int| poly_coef(c, n - 1 - i))
}

/// A polynomial keeps its values where zeros are put before its coefficients.
pub proof fn lemma_eval_padded(c: Seq<u32>, n: nat, a: u32)
    requires
        qr_elements(c),
        a < 256,
        n >= c.len(),
    ensures
        qr_eval(padded_to(c, n), a) == qr_eval(c, a),
        qr_elements(padded_to(c, n)),
    decreases n - c.len(),
{
    if n == c.len() {
        assert(padded_to(c, n) =~= c);
    } else {
        lemma_eval_padded(c, (n - 1) as nat, a);
        lemma_eval_leading_zero(padded_to(c, (n - 1) as nat), a);
        assert(padded_to(c, n) =~= seq![0u32] + padded_to(c, (n - 1) as nat));
    }
}

/// The sum of two lists of coefficients of one length, place by place.
pub open spec fn summed(u: Seq<u32>, v: Seq<u32>) -> Seq<u32> {
    Seq::new(u.len(), |i: int| u[i] ^ v[i])
}

/// The value of the sum of two polynomials is the sum of their values.
pub proof fn lemma_eval_summed(u: Seq<u32>, v: Seq<u32>, a: u32)
    requires
        qr_elements(u),
        qr_elements(v),
        u.len() == v.len(),
        a < 256,
    ensures
        qr_eval(summed(u, v), a) == qr_eval(u, a) ^ qr_eval(v, a),
        qr_elements(summed(u, v)),
    decreases u.len(),
{
    let w = summed(u, v);
    assert forall|i: int| 0 <= i < w.len() implies #[trigger] w[i] < QR_SIZE by {
        lemma_qr_closed(u[i], v[i]);
    }
    lemma_eval_step(u, a);
    lemma_eval_step(v, a);
    lemma_eval_step(w, a);
    if u.len() == 0 {
        lemma_sums(0, 0, 0, 0);
    } else {
        lemma_eval_summed(u.drop_last(), v.drop_last(), a);
        assert(w.drop_last() =~= summed(u.drop_last(), v.drop_last()));
        let eu = qr_eval(u.drop_last(), a);
        let ev = qr_eval(v.drop_last(), a);
        lemma_eval_step(u.drop_last(), a);
        lemma_eval_step(v.drop_last(), a);
        lemma_qr_distributes(eu, ev, a);
        lemma_qr_closed(a, eu);
        lemma_qr_closed(a, ev);
        lemma_qr_closed(eu, ev);
        lemma_qr_closed(a, (eu ^ ev) as u32);
        lemma_sums(qr_mul(a, eu), u.last(), qr_mul(a, ev), v.last());
    }
}

/// The value of the sum of two polynomials, as the polynomials are added, is the sum of
/// their values.
pub proof fn lemma_eval_add(u: Seq<u32>, v: Seq<u32>, a: u32)
    requires
        qr_elements(u),
        qr_elements(v),
        a < 256,
    ensures
        qr_eval(poly_add(u, v), a) == qr_eval(u, a) ^ qr_eval(v, a),
        qr_elements(poly_add(u, v)),
        qr_eval(poly_add_raw(u, v), a) == qr_eval(u, a) ^ qr_eval(v, a),
        qr_elements(poly_add_raw(u, v)),
{
    let n: nat = if u.len() >= v.len() {
        u.len()
    } else {
        v.len()
    };
    lemma_eval_padded(u, n, a);
    lemma_eval_padded(v, n, a);
    lemma_eval_summed(padded_to(u, n), padded_to(v, n), a);
    assert(poly_add_raw(u, v) =~= summed(padded_to(u, n), padded_to(v, n)));
    lemma_eval_normalize(poly_add_raw(u, v), a);
}

/// Every coefficient of `c` times `s`.
pub open spec fn scaled(c: Seq<u32>, s: u32) -> Seq<u32> {
    Seq::new(c.len(), |i: int| qr_mul(c[i], s))
}

/// The coefficients of `c` with `d` zeros behind them: `c` times `x^d`.
pub open spec fn shifted(c: Seq<u32>, d: nat) -> Seq<u32> {
    Seq::new(c.len() + d, |i: int| if i < c.len() {
        c[i]
    } else {
        0u32
    })
}

/// `e` times `a`, `d` times over.
pub open spec fn times_power(e: u32, a: u32, d: nat) -> u32
    decreases d,
{
    if d == 0 {
        e
    } else {
        qr_mul(a, times_power(e, a, (d - 1) as nat))
    }
}

/// The value of a polynomial times an element is the value times the element.
pub proof fn lemma_eval_scaled(c: Seq<u32>, s: u32, a: u32)
    requires
        qr_elements(c),
        s < 256,
        a < 256,
    ensures
        qr_eval(scaled(c, s), a) == qr_mul(qr_eval(c, a), s),
        qr_elements(scaled(c, s)),
    decreases c.len(),
{
    let w = scaled(c, s);
    assert forall|i: int| 0 <= i < w.len() implies #[trigger] w[i] < QR_SIZE by {
        lemma_qr_closed(c[i], s);
    }
    lemma_eval_step(c, a);
    lemma_eval_step(w, a);
    if c.len() == 0 {
        lemma_qr_closed(s, 0);
    } else {
        lemma_eval_scaled(c.drop_last(), s, a);
        assert(w.drop_last() =~= scaled(c.drop_last(), s));
        let e = qr_eval(c.drop_last(), a);
        lemma_eval_step(c.drop_last(), a);
        assert(c[c.len() - 1] < QR_SIZE);
        lemma_qr_closed(a, e);
        lemma_qr_closed(e, s);
        // (a * e + last) * s is (a * e) * s + last * s, and (a * e) * s is a * (e * s).
        lemma_qr_distributes(qr_mul(a, e), c.last(), s);
        lemma_qr_associates(a, e, s);
    }
}

/// The value of a polynomial times `x^d` is the value times `a`, `d` times over.
pub proof fn lemma_eval_shifted(c: Seq<u32>, d: nat, a: u32)
    requires
        qr_elements(c),
        a < 256,
    ensures
        qr_eval(shifted(c, d), a) == times_power(qr_eval(c, a), a, d),
        qr_elements(shifted(c, d)),
        times_power(qr_eval(c, a), a, d) < 256,
    decreases d,
{
    lemma_eval_step(c, a);
    if d == 0 {
        assert(shifted(c, 0) =~= c);
    } else {
        lemma_eval_shifted(c, (d - 1) as nat, a);
        let w = shifted(c, d);
        assert(w.drop_last() =~= shifted(c, (d - 1) as nat));
        lemma_eval_step(w, a);
        let e = times_power(qr_eval(c, a), a, (d - 1) as nat);
        lemma_qr_closed(a, e);
        lemma_sums(qr_mul(a, e), 0, 0, 0);
    }
}

/// Zero stays zero, however often it is taken times `a`.
pub proof fn lemma_times_power_of_zero(a: u32, d: nat)
    requires
        a < 256,
    ensures
        times_power(0, a, d) == 0,
    decreases d,
{
    if d > 0 {
        lemma_times_power_of_zero(a, (d - 1) as nat);
        lemma_qr_closed(a, 0);
    }
}

/// Where a polynomial has the value zero at `a`, its multiples by `s * x^d` have the value
/// zero there too.
pub proof fn lemma_eval_monomial_multiple(b: Seq<u32>, d: nat, s: u32, a: u32)
    requires
        qr_elements(b),
        b.len() >= 1,
        s < 256,
        a < 256,
        qr_eval(b, a) == 0,
    ensures
        qr_eval(poly_mul_monomial(QR_PRIMITIVE, QR_SIZE, b, d, s), a) == 0,
        qr_elements(poly_mul_monomial(QR_PRIMITIVE, QR_SIZE, b, d, s)),
{
    if s == 0 {
        let zero = seq![0u32];
        assert(qr_elements(zero));
        lemma_eval_step(zero, a);
        assert(zero.drop_last() =~= Seq::<u32>::empty());
        lemma_eval_step(zero.drop_last(), a);
        lemma_qr_closed(a, 0);
        lemma_sums(0, 0, 0, 0);
    } else {
        lemma_eval_scaled(b, s, a);
        lemma_qr_closed(s, 0);
        lemma_eval_shifted(scaled(b, s), d, a);
        lemma_times_power_of_zero(a, d);
        let raw = shifted(scaled(b, s), d);
        assert(raw =~= Seq::new(
            b.len() + d,
            |i: int|
                if i < b.len() {
                    gf_mul(QR_PRIMITIVE, QR_SIZE, b[i], s)
                } else {
                    0u32
                },
        ));
        lemma_eval_normalize(raw, a);
    }
}

/// Where the divisor has the value zero at `a`, the remainder of a division has the value
/// of the dividend there.
pub proof fn lemma_division_keeps_value(q: Seq<u32>, r: Seq<u32>, b: Seq<u32>, a: u32)
    requires
        qr_elements(r),
        qr_elements(b),
        b.len() >= 1,
        a < 256,
        qr_eval(b, a) == 0,
        poly_div(QR_PRIMITIVE, QR_SIZE, q, r, b) is Some,
    ensures
        qr_eval(poly_div(QR_PRIMITIVE, QR_SIZE, q, r, b)->Some_0.1, a) == qr_eval(r, a),
        qr_elements(poly_div(QR_PRIMITIVE, QR_SIZE, q, r, b)->Some_0.1),
    decreases r.len(),
{
    if r.len() < b.len() || r.len() == 0 || r[0] == 0 {
    } else {
        let dd = (r.len() - b.len()) as nat;
        let inverse = gf_inv(QR_PRIMITIVE, QR_SIZE, b[0]);
        lemma_powers_of_two();
        lemma_gf_exp_bound(
            QR_PRIMITIVE,
            QR_SIZE,
            (QR_SIZE - 1 - gf_log(QR_PRIMITIVE, QR_SIZE, b[0])) as nat,
        );
        lemma_qr_closed(r[0], inverse);
        let scale = qr_mul(r[0], inverse);
        let multiple = poly_mul_monomial(QR_PRIMITIVE, QR_SIZE, b, dd, scale);
        lemma_eval_monomial_multiple(b, dd, scale, a);
        lemma_eval_add(r, multiple, a);
        lemma_eval_step(r, a);
        lemma_sums(qr_eval(r, a), 0, 0, 0);
        let (q2, r2) = poly_div_step(QR_PRIMITIVE, QR_SIZE, q, r, b);
        assert(r2 == poly_add(r, multiple));
        if r2.len() >= 1 && r2[0] == 0 {
        } else if r2.len() < r.len() {
            lemma_division_keeps_value(q2, r2, b, a);
        }
    }
}

/// The value of a polynomial times `s * x^d`, for an `s` other than zero, is the value
/// times `s`, and that times `a`, `d` times over.
pub proof fn lemma_eval_monomial_product(b: Seq<u32>, d: nat, s: u32, a: u32)
    requires
        qr_elements(b),
        1 <= s < 256,
        a < 256,
    ensures
        qr_eval(poly_mul_monomial(QR_PRIMITIVE, QR_SIZE, b, d, s), a) == times_power(
            qr_mul(qr_eval(b, a), s),
            a,
            d,
        ),
        qr_elements(poly_mul_monomial(QR_PRIMITIVE, QR_SIZE, b, d, s)),
{
    lemma_eval_scaled(b, s, a);
    lemma_eval_shifted(scaled(b, s), d, a);
    let raw = shifted(scaled(b, s), d);
    assert(raw =~= Seq::new(
        b.len() + d,
        |i: int|
            if i < b.len() {
                gf_mul(QR_PRIMITIVE, QR_SIZE, b[i], s)
            } else {
                0u32
            },
    ));
    lemma_eval_normalize(raw, a);
}

/// The coefficient at place `k` of a polynomial times `x + r`, summed over the first `m`
/// coefficients of the polynomial.
pub proof fn lemma_conv_linear(p: Seq<u32>, r: u32, k: int, m: nat)
    requires
        qr_elements(p),
        r < 256,
        m <= p.len(),
        0 <= k <= p.len(),
    ensures
        conv_upto(QR_PRIMITIVE, QR_SIZE, p, seq![1u32, r], k, m) == (if k < m {
            p[k]
        } else {
            0u32
        }) ^ (if 1 <= k && k - 1 < m {
            qr_mul(p[k - 1], r)
        } else {
            0u32
        }),
    decreases m,
{
    let q = seq![1u32, r];
    lemma_sums(0, 0, 0, 0);
    if m > 0 {
        lemma_conv_linear(p, r, k, (m - 1) as nat);
        let before = conv_upto(QR_PRIMITIVE, QR_SIZE, p, q, k, (m - 1) as nat);
        let term = conv_term(QR_PRIMITIVE, QR_SIZE, p, q, m - 1, k);
        if k == m - 1 {
            assert(p[k] < QR_SIZE);
            lemma_qr_closed(p[k], 1);
            assert(term == p[k]);
            if k >= 1 {
                assert(p[k - 1] < QR_SIZE);
                lemma_qr_closed(p[k - 1], r);
                lemma_sums(0, qr_mul(p[k - 1], r), p[k], 0);
                lemma_sums(qr_mul(p[k - 1], r), p[k], 0, 0);
            } else {
                lemma_sums(p[k], 0, 0, 0);
            }
        } else if k == m {
            assert(q[1] == r);
            assert(term == qr_mul(p[k - 1], r));
            lemma_sums(term, 0, 0, 0);
        } else {
            assert(term == 0);
            lemma_sums(before, 0, 0, 0);
        }
    }
}

/// Where a polynomial has the value zero at `a`, or where `a` is `r`, the polynomial
/// times `x + r` has the value zero at `a`.
pub proof fn lemma_eval_times_linear(p: Seq<u32>, r: u32, a: u32)
    requires
        qr_elements(p),
        p.len() >= 1,
        r < 256,
        a < 256,
    ensures
        qr_elements(poly_mul(QR_PRIMITIVE, QR_SIZE, p, seq![1u32, r])),
        poly_mul(QR_PRIMITIVE, QR_SIZE, p, seq![1u32, r]).len() >= 1,
        (qr_eval(p, a) == 0 || a == r) ==> qr_eval(
            poly_mul(QR_PRIMITIVE, QR_SIZE, p, seq![1u32, r]),
            a,
        ) == 0,
{
    let q = seq![1u32, r];
    let product = poly_mul(QR_PRIMITIVE, QR_SIZE, p, q);
    if p[0] == 0 {
        let zero = seq![0u32];
        assert(product == zero);
        assert(qr_elements(zero));
        lemma_eval_step(zero, a);
        assert(zero.drop_last() =~= Seq::<u32>::empty());
        lemma_eval_step(zero.drop_last(), a);
        lemma_qr_closed(a, 0);
        lemma_sums(0, 0, 0, 0);
    } else {
        let raw = Seq::new(
            (p.len() + q.len() - 1) as nat,
            |k: int| conv_upto(QR_PRIMITIVE, QR_SIZE, p, q, k, p.len()),
        );
        let front = shifted(p, 1);
        let back = seq![0u32] + scaled(p, r);
        lemma_eval_shifted(p, 1, a);
        lemma_eval_scaled(p, r, a);
        lemma_eval_leading_zero(scaled(p, r), a);
        assert(qr_elements(back));
        lemma_eval_summed(front, back, a);
        assert forall|k: int| 0 <= k < raw.len() implies raw[k] == summed(front, back)[k] by {
            lemma_conv_linear(p, r, k, p.len());
        }
        assert(raw =~= summed(front, back));
        lemma_eval_normalize(raw, a);
        lemma_normalize(raw);
        // The value is a * e + e * r, which is (a + r) * e.
        let e = qr_eval(p, a);
        lemma_eval_step(p, a);
        lemma_qr_closed(a, e);
        lemma_qr_closed(r, e);
        lemma_qr_distributes(a, r, e);
        lemma_qr_closed(a, r);
        lemma_qr_closed((a ^ r) as u32, e);
        lemma_sums(a, 0, 0, 0);
        assert(times_power(e, a, 1) == qr_mul(a, e)) by {
            reveal_with_fuel(times_power, 2);
        }
    }
}

/// The generator polynomial of every degree has its coefficients in the field of the QR
/// code.
pub proof fn lemma_generator_elements(d: nat)
    ensures
        qr_elements(rs_generator(QR_PRIMITIVE, QR_SIZE, 0, d)),
        rs_generator(QR_PRIMITIVE, QR_SIZE, 0, d).len() >= 1,
    decreases d,
{
    if d > 0 {
        lemma_generator_elements((d - 1) as nat);
        lemma_powers_of_two();
        lemma_gf_exp_bound(QR_PRIMITIVE, QR_SIZE, (d - 1) as nat);
        lemma_eval_times_linear(
            rs_generator(QR_PRIMITIVE, QR_SIZE, 0, (d - 1) as nat),
            gf_exp(QR_PRIMITIVE, QR_SIZE, (d - 1) as nat),
            0,
        );
    }
}

/// The generator polynomial of degree `d` has the value zero at `2^j`, for every `j`
/// below `d`.
pub proof fn lemma_generator_roots(d: nat, j: nat)
    requires
        j < d,
    ensures
        qr_eval(rs_generator(QR_PRIMITIVE, QR_SIZE, 0, d), gf_exp(QR_PRIMITIVE, QR_SIZE, j)) == 0,
    decreases d,
{
    lemma_powers_of_two();
    lemma_gf_exp_bound(QR_PRIMITIVE, QR_SIZE, (d - 1) as nat);
    lemma_gf_exp_bound(QR_PRIMITIVE, QR_SIZE, j);
    lemma_generator_elements((d - 1) as nat);
    if j < d - 1 {
        lemma_generator_roots((d - 1) as nat, j);
    }
    lemma_eval_times_linear(
        rs_generator(QR_PRIMITIVE, QR_SIZE, 0, (d - 1) as nat),
        gf_exp(QR_PRIMITIVE, QR_SIZE, (d - 1) as nat),
        gf_exp(QR_PRIMITIVE, QR_SIZE, j),
    );
}

/// A block that the encoder has given its error correction codewords is one that the
/// decoder leaves as it is: where `data` gets the `ec` codewords `parity` over the field
/// of the QR code, repairing `data` with `parity` behind it changes nothing.
pub proof fn lemma_encoded_block_is_left(data: Seq<u32>, ec: nat)
    requires
        qr_elements(data),
        data.len() >= 1,
        1 <= ec <= 256,
        rs_parity(QR_PRIMITIVE, QR_SIZE, 0, data, ec) is Ok,
    ensures
        rs_decoded(
            FieldSpec { primitive: QR_PRIMITIVE, size: QR_SIZE, base: 0 },
            data + rs_parity(QR_PRIMITIVE, QR_SIZE, 0, data, ec)->Ok_0,
            ec,
        ) == Ok::<Seq<u32>, ErrorKind>(data + rs_parity(QR_PRIMITIVE, QR_SIZE, 0, data, ec)->Ok_0),
{
    let f = FieldSpec { primitive: QR_PRIMITIVE, size: QR_SIZE, base: 0 };
    let generator = rs_generator(QR_PRIMITIVE, QR_SIZE, 0, ec);
    let normal = poly_normalize(data);
    let info = poly_mul_monomial(QR_PRIMITIVE, QR_SIZE, normal, ec, 1);
    let parts = poly_div(QR_PRIMITIVE, QR_SIZE, seq![0u32], info, generator);
    let rem = parts->Some_0.1;
    let parity = rs_parity(QR_PRIMITIVE, QR_SIZE, 0, data, ec)->Ok_0;
    assert(parity == rs_padded(rem, ec));
    let block = data + parity;
    let n = (data.len() + ec) as nat;
    lemma_generator_elements(ec);
    lemma_powers_of_two();
    assert forall|k: int| 0 <= k < ec implies #[trigger] rs_syndromes(f, block, ec)[k] == 0 by {
        let j = (ec - 1 - k) as nat;
        let a = gf_exp(QR_PRIMITIVE, QR_SIZE, j);
        lemma_gf_exp_bound(QR_PRIMITIVE, QR_SIZE, j);
        lemma_generator_roots(ec, j);
        // The value of the data times x^ec.
        lemma_eval_normalize(data, a);
        lemma_eval_monomial_product(normal, ec, 1, a);
        lemma_eval_step(data, a);
        lemma_qr_closed(qr_eval(data, a), 1);
        lemma_eval_shifted(data, ec, a);
        // The remainder has the same value.
        lemma_division_keeps_value(seq![0u32], info, generator, a);
        lemma_eval_padded(rem, n, a);
        // The block is the data times x^ec and the remainder.
        let front = shifted(data, ec);
        let back = padded_to(rem, n);
        lemma_eval_summed(front, back, a);
        assert forall|i: int| 0 <= i < n implies block[i] == summed(front, back)[i] by {
            if i < data.len() {
                lemma_sums(data[i], 0, 0, 0);
            } else {
                lemma_sums(parity[i - data.len()], 0, 0, 0);
            }
        }
        assert(block =~= summed(front, back));
        lemma_sums(qr_eval(front, a), 0, 0, 0);
        lemma_eval_normalize(block, a);
    }
    // The block holds elements of the field.
    let first = gf_exp(QR_PRIMITIVE, QR_SIZE, 0);
    lemma_gf_exp_bound(QR_PRIMITIVE, QR_SIZE, 0);
    lemma_generator_roots(ec, 0);
    lemma_eval_normalize(data, first);
    lemma_eval_monomial_product(normal, ec, 1, first);
    lemma_division_keeps_value(seq![0u32], info, generator, first);
    assert forall|i: int| 0 <= i < block.len() implies #[trigger] block[i] < QR_SIZE by {
        if i >= data.len() {
            let e = i - data.len();
            if e >= ec - rem.len() {
                assert(rem[e - (ec - rem.len())] < QR_SIZE);
            }
        }
    }
    assert(rs_syndromes(f, block, ec).len() == ec);
}

/// The error correction codewords that the encoder gives are `ec` elements of the field
/// of the QR code.
pub proof fn lemma_parity_elements(data: Seq<u32>, ec: nat)
    requires
        qr_elements(data),
        data.len() >= 1,
        1 <= ec <= 256,
        rs_parity(QR_PRIMITIVE, QR_SIZE, 0, data, ec) is Ok,
    ensures
        qr_elements(rs_parity(QR_PRIMITIVE, QR_SIZE, 0, data, ec)->Ok_0),
        rs_parity(QR_PRIMITIVE, QR_SIZE, 0, data, ec)->Ok_0.len() == ec,
{
    let generator = rs_generator(QR_PRIMITIVE, QR_SIZE, 0, ec);
    let normal = poly_normalize(data);
    let info = poly_mul_monomial(QR_PRIMITIVE, QR_SIZE, normal, ec, 1);
    let rem = poly_div(QR_PRIMITIVE, QR_SIZE, seq![0u32], info, generator)->Some_0.1;
    let parity = rs_parity(QR_PRIMITIVE, QR_SIZE, 0, data, ec)->Ok_0;
    lemma_generator_elements(ec);
    lemma_powers_of_two();
    let first = gf_exp(QR_PRIMITIVE, QR_SIZE, 0);
    lemma_gf_exp_bound(QR_PRIMITIVE, QR_SIZE, 0);
    lemma_generator_roots(ec, 0);
    lemma_eval_normalize(data, first);
    lemma_eval_monomial_product(normal, ec, 1, first);
    lemma_division_keeps_value(seq![0u32], info, generator, first);
    assert forall|i: int| 0 <= i < parity.len() implies #[trigger] parity[i] < QR_SIZE by {
        if i >= ec - rem.len() {
            assert(rem[i - (ec - rem.len())] < QR_SIZE);
        }
    }
}

/// The generator polynomial of degree `d` has `d + 1` coefficients, the first of them 1.
pub proof fn lemma_generator_leads_with_one(d: nat)
    ensures
        rs_generator(QR_PRIMITIVE, QR_SIZE, 0, d).len() == d + 1,
        rs_generator(QR_PRIMITIVE, QR_SIZE, 0, d)[0] == 1,
    decreases d,
{
    if d > 0 {
        let p = rs_generator(QR_PRIMITIVE, QR_SIZE, 0, (d - 1) as nat);
        let r = gf_exp(QR_PRIMITIVE, QR_SIZE, (d - 1) as nat);
        let q = seq![1u32, r];
        lemma_generator_leads_with_one((d - 1) as nat);
        lemma_generator_elements((d - 1) as nat);
        lemma_powers_of_two();
        lemma_gf_exp_bound(QR_PRIMITIVE, QR_SIZE, (d - 1) as nat);
        let raw = Seq::new(
            (p.len() + q.len() - 1) as nat,
            |k: int| conv_upto(QR_PRIMITIVE, QR_SIZE, p, q, k, p.len()),
        );
        lemma_conv_linear(p, r, 0, p.len());
        lemma_sums(1, 0, 0, 0);
        assert(raw[0] == 1);
        lemma_normalize(raw);
        assert(q[0] == 1);
        assert(rs_generator(QR_PRIMITIVE, QR_SIZE, 0, d) == poly_mul(QR_PRIMITIVE, QR_SIZE, p, q));
    }
}

/// The long division by a polynomial that leads with 1 comes to an end, with a remainder
/// shorter than the divisor.
pub proof fn lemma_division_ends(q: Seq<u32>, r: Seq<u32>, b: Seq<u32>)
    requires
        qr_elements(r),
        qr_elements(b),
        poly_normal(r),
        b.len() >= 2,
        b[0] == 1,
    ensures
        poly_div(QR_PRIMITIVE, QR_SIZE, q, r, b) is Some,
        poly_div(QR_PRIMITIVE, QR_SIZE, q, r, b)->Some_0.1.len() < b.len(),
    decreases r.len(),
{
    if r.len() < b.len() || r.len() == 0 || r[0] == 0 {
    } else {
        let dd = (r.len() - b.len()) as nat;
        let inverse = gf_inv(QR_PRIMITIVE, QR_SIZE, b[0]);
        lemma_powers_of_two();
        lemma_gf_exp_bound(
            QR_PRIMITIVE,
            QR_SIZE,
            (QR_SIZE - 1 - gf_log(QR_PRIMITIVE, QR_SIZE, b[0])) as nat,
        );
        lemma_qr_inverse(1);
        lemma_qr_closed(inverse, 1);
        assert(inverse == 1);
        assert(r[0] < QR_SIZE);
        lemma_qr_closed(r[0], 1);
        let scale = qr_mul(r[0], inverse);
        assert(scale == r[0]);
        let raw = Seq::new(
            b.len() + dd,
            |i: int|
                if i < b.len() {
                    gf_mul(QR_PRIMITIVE, QR_SIZE, b[i], scale)
                } else {
                    0u32
                },
        );
        let multiple = poly_mul_monomial(QR_PRIMITIVE, QR_SIZE, b, dd, scale);
        assert(raw[0] == scale);
        lemma_normalize(raw);
        assert(multiple == raw);
        assert forall|i: int| 0 <= i < raw.len() implies #[trigger] raw[i] < QR_SIZE by {
            if i < b.len() {
                assert(b[i] < QR_SIZE);
                lemma_qr_closed(b[i], scale);
            }
        }
        let sum = poly_add_raw(r, multiple);
        assert(sum.len() == r.len());
        assert(sum[0] == 0) by {
            lemma_sums(r[0], 0, 0, 0);
        }
        assert forall|i: int| 0 <= i < sum.len() implies #[trigger] sum[i] < QR_SIZE by {
            assert(r[i] < QR_SIZE);
            assert(raw[i] < QR_SIZE);
            lemma_qr_closed(r[i], raw[i]);
        }
        let rest = sum.drop_first();
        lemma_normalize(rest);
        let (q2, r2) = poly_div_step(QR_PRIMITIVE, QR_SIZE, q, r, b);
        assert(r2 == poly_normalize(rest));
        assert(qr_elements(r2)) by {
            assert forall|i: int| 0 <= i < rest.len() implies #[trigger] rest[i] < QR_SIZE by {
                assert(rest[i] == sum[i + 1]);
            }
            lemma_normalize_in_field(rest, QR_SIZE);
        }
        if r2.len() >= 1 && r2[0] == 0 {
        } else {
            lemma_division_ends(q2, r2, b);
        }
    }
}

/// The encoder never fails over the field of the QR code: data of elements of the field
/// gets its error correction codewords, however many are asked for.
pub proof fn lemma_parity_is_had(data: Seq<u32>, ec: nat)
    requires
        qr_elements(data),
        data.len() >= 1,
        ec >= 1,
    ensures
        rs_parity(QR_PRIMITIVE, QR_SIZE, 0, data, ec) is Ok,
{
    let generator = rs_generator(QR_PRIMITIVE, QR_SIZE, 0, ec);
    let normal = poly_normalize(data);
    let info = poly_mul_monomial(QR_PRIMITIVE, QR_SIZE, normal, ec, 1);
    lemma_generator_elements(ec);
    lemma_generator_leads_with_one(ec);
    lemma_normalize(data);
    lemma_normalize_in_field(data, QR_SIZE);
    lemma_eval_monomial_product(normal, ec, 1, 0);
    lemma_normalize(
        Seq::new(
            normal.len() + ec,
            |i: int|
                if i < normal.len() {
                    gf_mul(QR_PRIMITIVE, QR_SIZE, normal[i], 1)
                } else {
                    0u32
                },
        ),
    );
    lemma_division_ends(seq![0u32], info, generator);
}

} // verus!
