use crate::common::reedsolomon::generic_gf::{
    gf_double, gf_exp, gf_inv, gf_log, gf_log_below, gf_mul, lemma_gf_mul_commutes,
};
use vstd::prelude::*;

verus! {

/// The primitive polynomial of the field of the QR code, x^8 + x^4 + x^3 + x^2 + 1.
pub const QR_PRIMITIVE: u32 = 0x011D;

/// The order of the field of the QR code.
pub const QR_SIZE: u32 = 256;

/// The powers of 2 in the field of the QR code, sixteen to a row: row `k` holds
/// `2^(16k)` to `2^(16k + 15)`.
pub open spec fn qr_power_row(k: int) -> Seq<u32> {
    if k == 0 {
        seq![1u32, 2, 4, 8, 16, 32, 64, 128, 29, 58, 116, 232, 205, 135, 19, 38]
    } else if k == 1 {
        seq![76u32, 152, 45, 90, 180, 117, 234, 201, 143, 3, 6, 12, 24, 48, 96, 192]
    } else if k == 2 {
        seq![157u32, 39, 78, 156, 37, 74, 148, 53, 106, 212, 181, 119, 238, 193, 159, 35]
    } else if k == 3 {
        seq![70u32, 140, 5, 10, 20, 40, 80, 160, 93, 186, 105, 210, 185, 111, 222, 161]
    } else if k == 4 {
        seq![95u32, 190, 97, 194, 153, 47, 94, 188, 101, 202, 137, 15, 30, 60, 120, 240]
    } else if k == 5 {
        seq![253u32, 231, 211, 187, 107, 214, 177, 127, 254, 225, 223, 163, 91, 182, 113, 226]
    } else if k == 6 {
        seq![217u32, 175, 67, 134, 17, 34, 68, 136, 13, 26, 52, 104, 208, 189, 103, 206]
    } else if k == 7 {
        seq![129u32, 31, 62, 124, 248, 237, 199, 147, 59, 118, 236, 197, 151, 51, 102, 204]
    } else if k == 8 {
        seq![133u32, 23, 46, 92, 184, 109, 218, 169, 79, 158, 33, 66, 132, 21, 42, 84]
    } else if k == 9 {
        seq![168u32, 77, 154, 41, 82, 164, 85, 170, 73, 146, 57, 114, 228, 213, 183, 115]
    } else if k == 10 {
        seq![230u32, 209, 191, 99, 198, 145, 63, 126, 252, 229, 215, 179, 123, 246, 241, 255]
    } else if k == 11 {
        seq![227u32, 219, 171, 75, 150, 49, 98, 196, 149, 55, 110, 220, 165, 87, 174, 65]
    } else if k == 12 {
        seq![130u32, 25, 50, 100, 200, 141, 7, 14, 28, 56, 112, 224, 221, 167, 83, 166]
    } else if k == 13 {
        seq![81u32, 162, 89, 178, 121, 242, 249, 239, 195, 155, 43, 86, 172, 69, 138, 9]
    } else if k == 14 {
        seq![18u32, 36, 72, 144, 61, 122, 244, 245, 247, 243, 251, 235, 203, 139, 11, 22]
    } else {
        seq![44u32, 88, 176, 125, 250, 233, 207, 131, 27, 54, 108, 216, 173, 71, 142, 1]
    }
}

/// The logarithms to base 2 in the field of the QR code, sixteen to a row: row `k` holds
/// those of `16k` to `16k + 15`. Zero has none; a zero stands in its place.
pub open spec fn qr_log_row(k: int) -> Seq<nat> {
    if k == 0 {
        seq![0nat, 0, 1, 25, 2, 50, 26, 198, 3, 223, 51, 238, 27, 104, 199, 75]
    } else if k == 1 {
        seq![4nat, 100, 224, 14, 52, 141, 239, 129, 28, 193, 105, 248, 200, 8, 76, 113]
    } else if k == 2 {
        seq![5nat, 138, 101, 47, 225, 36, 15, 33, 53, 147, 142, 218, 240, 18, 130, 69]
    } else if k == 3 {
        seq![29nat, 181, 194, 125, 106, 39, 249, 185, 201, 154, 9, 120, 77, 228, 114, 166]
    } else if k == 4 {
        seq![6nat, 191, 139, 98, 102, 221, 48, 253, 226, 152, 37, 179, 16, 145, 34, 136]
    } else if k == 5 {
        seq![54nat, 208, 148, 206, 143, 150, 219, 189, 241, 210, 19, 92, 131, 56, 70, 64]
    } else if k == 6 {
        seq![30nat, 66, 182, 163, 195, 72, 126, 110, 107, 58, 40, 84, 250, 133, 186, 61]
    } else if k == 7 {
        seq![202nat, 94, 155, 159, 10, 21, 121, 43, 78, 212, 229, 172, 115, 243, 167, 87]
    } else if k == 8 {
        seq![7nat, 112, 192, 247, 140, 128, 99, 13, 103, 74, 222, 237, 49, 197, 254, 24]
    } else if k == 9 {
        seq![227nat, 165, 153, 119, 38, 184, 180, 124, 17, 68, 146, 217, 35, 32, 137, 46]
    } else if k == 10 {
        seq![55nat, 63, 209, 91, 149, 188, 207, 205, 144, 135, 151, 178, 220, 252, 190, 97]
    } else if k == 11 {
        seq![242nat, 86, 211, 171, 20, 42, 93, 158, 132, 60, 57, 83, 71, 109, 65, 162]
    } else if k == 12 {
        seq![31nat, 45, 67, 216, 183, 123, 164, 118, 196, 23, 73, 236, 127, 12, 111, 246]
    } else if k == 13 {
        seq![108nat, 161, 59, 82, 41, 157, 85, 170, 251, 96, 134, 177, 187, 204, 62, 90]
    } else if k == 14 {
        seq![203nat, 89, 95, 176, 156, 169, 160, 81, 11, 245, 22, 235, 122, 117, 44, 215]
    } else {
        seq![79nat, 174, 213, 233, 230, 231, 173, 232, 116, 214, 244, 234, 168, 80, 88, 175]
    }
}

/// `2^i` in the field of the QR code, for `i` from 0 to 255.
pub open spec fn qr_power(i: int) -> u32 {
    qr_power_row(i / 16)[i % 16]
}

/// The logarithm of `a` to base 2 in the field of the QR code, for `a` from 1 to 255.
pub open spec fn qr_log(a: int) -> nat {
    qr_log_row(a / 16)[a % 16]
}

/// Twice `x` in the field of the QR code, by arithmetic: below 128 the double; from 128
/// on the double without its ninth bit and with the bits 0, 2, 3 and 4 turned.
pub open spec fn qr_double(x: int) -> int {
    if x < 128 {
        2 * x
    } else {
        let y = 2 * x - 256;
        y + 29 - 2 * (4 * ((y / 4) % 2) + 8 * ((y / 8) % 2) + 16 * ((y / 16) % 2))
    }
}

/// The double of an element from 128 on, reduced by the primitive polynomial, bit by bit
/// and by arithmetic.
proof fn lemma_double_bits(x: u32, y: u32)
    by (bit_vector)
    requires
        128 <= x < 256,
        y == 2 * x - 256,
    ensures
        y < 256,
        ((2 * x) as u32 ^ 0x011Du32) & 0xFFu32 == y + 29 - 2 * (4 * ((y / 4) % 2) + 8 * ((y / 8)
            % 2) + 16 * ((y / 16) % 2)),
{
}

/// Doubling in the field of the QR code is the doubling by arithmetic.
pub proof fn lemma_qr_double(x: u32)
    requires
        x < 256,
    ensures
        gf_double(QR_PRIMITIVE, QR_SIZE, x) == qr_double(x as int),
{
    if x >= 128 {
        lemma_double_bits(x, (2 * x - 256) as u32);
    }
}

/// What holds of entry `i` of the two tables: the power is an element other than zero,
/// and 1 at both ends; it is twice the one before it; the logarithm of the power is its
/// exponent; and the power of the logarithm is the element.
pub open spec fn entry_holds(i: int) -> bool {
    &&& 1 <= qr_power(i) < 256
    &&& (i == 0 || i == 255) ==> qr_power(i) == 1
    &&& i < 255 ==> qr_double(qr_power(i) as int) == qr_power(i + 1)
    &&& i < 255 ==> qr_log(qr_power(i) as int) == i
    &&& i >= 1 ==> qr_power(qr_log(i) as int) == i && qr_log(i) < 255
}

/// The entries of row 0 of the two tables are as they should be.
proof fn lemma_row_0(j: int)
    requires
        0 <= j < 16,
    ensures
        entry_holds(0 + j),
{
}

/// The entries of row 1 of the two tables are as they should be.
proof fn lemma_row_1(j: int)
    requires
        0 <= j < 16,
    ensures
        entry_holds(16 + j),
{
}

/// The entries of row 2 of the two tables are as they should be.
proof fn lemma_row_2(j: int)
    requires
        0 <= j < 16,
    ensures
        entry_holds(32 + j),
{
}

/// The entries of row 3 of the two tables are as they should be.
proof fn lemma_row_3(j: int)
    requires
        0 <= j < 16,
    ensures
        entry_holds(48 + j),
{
}

/// The entries of row 4 of the two tables are as they should be.
proof fn lemma_row_4(j: int)
    requires
        0 <= j < 16,
    ensures
        entry_holds(64 + j),
{
}

/// The entries of row 5 of the two tables are as they should be.
proof fn lemma_row_5(j: int)
    requires
        0 <= j < 16,
    ensures
        entry_holds(80 + j),
{
}

/// The entries of row 6 of the two tables are as they should be.
proof fn lemma_row_6(j: int)
    requires
        0 <= j < 16,
    ensures
        entry_holds(96 + j),
{
}

/// The entries of row 7 of the two tables are as they should be.
proof fn lemma_row_7(j: int)
    requires
        0 <= j < 16,
    ensures
        entry_holds(112 + j),
{
}

/// The entries of row 8 of the two tables are as they should be.
proof fn lemma_row_8(j: int)
    requires
        0 <= j < 16,
    ensures
        entry_holds(128 + j),
{
}

/// The entries of row 9 of the two tables are as they should be.
proof fn lemma_row_9(j: int)
    requires
        0 <= j < 16,
    ensures
        entry_holds(144 + j),
{
}

/// The entries of row 10 of the two tables are as they should be.
proof fn lemma_row_10(j: int)
    requires
        0 <= j < 16,
    ensures
        entry_holds(160 + j),
{
}

/// The entries of row 11 of the two tables are as they should be.
proof fn lemma_row_11(j: int)
    requires
        0 <= j < 16,
    ensures
        entry_holds(176 + j),
{
}

/// The entries of row 12 of the two tables are as they should be.
proof fn lemma_row_12(j: int)
    requires
        0 <= j < 16,
    ensures
        entry_holds(192 + j),
{
}

/// The entries of row 13 of the two tables are as they should be.
proof fn lemma_row_13(j: int)
    requires
        0 <= j < 16,
    ensures
        entry_holds(208 + j),
{
}

/// The entries of row 14 of the two tables are as they should be.
proof fn lemma_row_14(j: int)
    requires
        0 <= j < 16,
    ensures
        entry_holds(224 + j),
{
}

/// The entries of row 15 of the two tables are as they should be.
proof fn lemma_row_15(j: int)
    requires
        0 <= j < 16,
    ensures
        entry_holds(240 + j),
{
}

/// Every entry of the two tables is as it should be.
pub proof fn lemma_entries(i: int)
    requires
        0 <= i < 256,
    ensures
        entry_holds(i),
{
    let j = i % 16;
    if i < 16 {
        lemma_row_0(j);
    } else if i < 32 {
        lemma_row_1(j);
    } else if i < 48 {
        lemma_row_2(j);
    } else if i < 64 {
        lemma_row_3(j);
    } else if i < 80 {
        lemma_row_4(j);
    } else if i < 96 {
        lemma_row_5(j);
    } else if i < 112 {
        lemma_row_6(j);
    } else if i < 128 {
        lemma_row_7(j);
    } else if i < 144 {
        lemma_row_8(j);
    } else if i < 160 {
        lemma_row_9(j);
    } else if i < 176 {
        lemma_row_10(j);
    } else if i < 192 {
        lemma_row_11(j);
    } else if i < 208 {
        lemma_row_12(j);
    } else if i < 224 {
        lemma_row_13(j);
    } else if i < 240 {
        lemma_row_14(j);
    } else {
        lemma_row_15(j);
    }
}

/// The table of the powers holds the powers of 2 in the field of the QR code.
pub proof fn lemma_qr_powers(i: nat)
    requires
        i <= 255,
    ensures
        gf_exp(QR_PRIMITIVE, QR_SIZE, i) == qr_power(i as int),
    decreases i,
{
    if i == 0 {
        lemma_entries(0);
    } else {
        lemma_qr_powers((i - 1) as nat);
        lemma_entries(i - 1);
        lemma_qr_double(qr_power(i - 1));
    }
}

/// Where `2^i` is `a` for an `i` below `n`, the logarithm that is found below `n` is such
/// an exponent, and no smaller one than `i`.
pub proof fn lemma_log_found(primitive: u32, size: u32, a: u32, n: nat, i: nat)
    requires
        i < n,
        gf_exp(primitive, size, i) == a,
    ensures
        gf_exp(primitive, size, gf_log_below(primitive, size, a, n)) == a,
        i <= gf_log_below(primitive, size, a, n) < n,
    decreases n,
{
    if gf_exp(primitive, size, (n - 1) as nat) != a {
        lemma_log_found(primitive, size, a, (n - 1) as nat, i);
    }
}

/// In the field of the QR code the logarithm of `2^i` is `i`, for every `i` below 255:
/// no two of these powers are the same.
pub proof fn lemma_qr_log_of_power(i: nat)
    requires
        i < 255,
    ensures
        gf_log(QR_PRIMITIVE, QR_SIZE, gf_exp(QR_PRIMITIVE, QR_SIZE, i)) == i,
{
    let a = gf_exp(QR_PRIMITIVE, QR_SIZE, i);
    lemma_log_found(QR_PRIMITIVE, QR_SIZE, a, 255, i);
    let found = gf_log_below(QR_PRIMITIVE, QR_SIZE, a, 255);
    lemma_qr_powers(found);
    lemma_qr_powers(i);
    lemma_entries(found as int);
    lemma_entries(i as int);
}

/// In the field of the QR code the power of the logarithm of an element other than zero
/// is the element.
pub proof fn lemma_qr_exp_of_log(a: u32)
    requires
        1 <= a < 256,
    ensures
        gf_exp(QR_PRIMITIVE, QR_SIZE, gf_log(QR_PRIMITIVE, QR_SIZE, a)) == a,
        gf_log(QR_PRIMITIVE, QR_SIZE, a) < 255,
{
    lemma_entries(a as int);
    let i = qr_log(a as int);
    lemma_qr_powers(i);
    lemma_log_found(QR_PRIMITIVE, QR_SIZE, a, 255, i);
}

/// In the field of the QR code the product of an element other than zero and its
/// inverse is 1.
pub proof fn lemma_qr_inverse(a: u32)
    requires
        1 <= a < 256,
    ensures
        gf_mul(QR_PRIMITIVE, QR_SIZE, a, gf_inv(QR_PRIMITIVE, QR_SIZE, a)) == 1,
{
    lemma_qr_exp_of_log(a);
    let l = gf_log(QR_PRIMITIVE, QR_SIZE, a);
    let e = (255 - l) as nat;
    let inverse = gf_inv(QR_PRIMITIVE, QR_SIZE, a);
    assert(inverse == gf_exp(QR_PRIMITIVE, QR_SIZE, e));
    lemma_qr_powers(e);
    lemma_entries(e as int);
    if l == 0 {
        lemma_qr_powers(0);
        lemma_qr_log_of_power(0);
        assert(gf_log(QR_PRIMITIVE, QR_SIZE, inverse) == 0);
    } else {
        lemma_qr_log_of_power(e);
        assert((l + e) as int % 255 == 0);
    }
}

/// In the field of the QR code the product of two elements does not depend on their
/// order.
pub proof fn lemma_qr_product_commutes(a: u32, b: u32)
    requires
        a < 256,
        b < 256,
    ensures
        gf_mul(QR_PRIMITIVE, QR_SIZE, a, b) == gf_mul(QR_PRIMITIVE, QR_SIZE, b, a),
{
    lemma_gf_mul_commutes(QR_PRIMITIVE, QR_SIZE, a, b);
}

/// `x` doubled `n` times in the field of the QR code.
pub open spec fn doubled(x: u32, n: nat) -> u32
    decreases n,
{
    if n == 0 {
        x
    } else {
        gf_double(QR_PRIMITIVE, QR_SIZE, doubled(x, (n - 1) as nat))
    }
}

/// The double of the exclusive or of two elements is the exclusive or of their
/// doubles, and doubles are elements.
proof fn lemma_double_of_sum(a: u32, b: u32)
    by (bit_vector)
    requires
        a < 256,
        b < 256,
    ensures
        a ^ b < 256,
        (if (2 * (a ^ b)) as u32 >= 256 {
            ((2 * (a ^ b)) as u32 ^ 0x011Du32) & 0xFFu32
        } else {
            (2 * (a ^ b)) as u32
        }) == (if (2 * a) as u32 >= 256 {
            ((2 * a) as u32 ^ 0x011Du32) & 0xFFu32
        } else {
            (2 * a) as u32
        }) ^ (if (2 * b) as u32 >= 256 {
            ((2 * b) as u32 ^ 0x011Du32) & 0xFFu32
        } else {
            (2 * b) as u32
        }),
        (if (2 * a) as u32 >= 256 {
            ((2 * a) as u32 ^ 0x011Du32) & 0xFFu32
        } else {
            (2 * a) as u32
        }) < 256,
        a ^ 0 == a,
        0u32 ^ 0u32 == 0u32,
{
}

/// Doubling goes with the sum: the double of a sum is the sum of the doubles.
pub proof fn lemma_doubled_sum(a: u32, b: u32, n: nat)
    requires
        a < 256,
        b < 256,
    ensures
        doubled((a ^ b) as u32, n) == doubled(a, n) ^ doubled(b, n),
        doubled(a, n) < 256,
        doubled(b, n) < 256,
        a ^ b < 256,
    decreases n,
{
    lemma_double_of_sum(a, b);
    if n > 0 {
        lemma_doubled_sum(a, b, (n - 1) as nat);
        lemma_double_of_sum(doubled(a, (n - 1) as nat), doubled(b, (n - 1) as nat));
        lemma_double_of_sum(doubled(b, (n - 1) as nat), doubled(a, (n - 1) as nat));
    }
}

/// The power `2^(i + n)` is `2^i` doubled `n` times.
pub proof fn lemma_power_doubled(i: nat, n: nat)
    ensures
        gf_exp(QR_PRIMITIVE, QR_SIZE, i + n) == doubled(gf_exp(QR_PRIMITIVE, QR_SIZE, i), n),
    decreases n,
{
    if n > 0 {
        lemma_power_doubled(i, (n - 1) as nat);
    }
}

/// The powers of 2 come again after 255 steps.
pub proof fn lemma_qr_period(k: nat)
    ensures
        gf_exp(QR_PRIMITIVE, QR_SIZE, k) == gf_exp(QR_PRIMITIVE, QR_SIZE, (k % 255) as nat),
    decreases k,
{
    if k >= 255 {
        let rest = (k - 255) as nat;
        lemma_qr_period(rest);
        lemma_power_doubled(255, rest);
        lemma_power_doubled(0, rest);
        lemma_qr_powers(255);
        lemma_qr_powers(0);
        lemma_entries(255);
        lemma_entries(0);
    }
}

/// The product of `x` and `2^j` is `x` doubled `j` times.
pub proof fn lemma_product_with_power(x: u32, j: nat)
    requires
        x < 256,
        j < 255,
    ensures
        gf_mul(QR_PRIMITIVE, QR_SIZE, x, gf_exp(QR_PRIMITIVE, QR_SIZE, j)) == doubled(x, j),
{
    lemma_qr_powers(j);
    lemma_entries(j as int);
    lemma_qr_log_of_power(j);
    if x == 0 {
        lemma_doubled_sum(0, 0, j);
        lemma_double_of_sum(doubled(0, j), doubled(0, j));
        lemma_zero_doubled(j);
    } else {
        lemma_qr_exp_of_log(x);
        let l = gf_log(QR_PRIMITIVE, QR_SIZE, x);
        lemma_qr_period(l + j);
        lemma_power_doubled(l, j);
    }
}

/// Zero stays zero, however often it is doubled.
pub proof fn lemma_zero_doubled(n: nat)
    ensures
        doubled(0, n) == 0,
    decreases n,
{
    if n > 0 {
        lemma_zero_doubled((n - 1) as nat);
        lemma_qr_double(0);
    }
}

/// In the field of the QR code the product goes with the sum, which is the exclusive or:
/// `(a + b) * c` is `a * c + b * c`.
pub proof fn lemma_qr_distributes(a: u32, b: u32, c: u32)
    requires
        a < 256,
        b < 256,
        c < 256,
    ensures
        gf_mul(QR_PRIMITIVE, QR_SIZE, (a ^ b) as u32, c) == gf_mul(QR_PRIMITIVE, QR_SIZE, a, c)
            ^ gf_mul(QR_PRIMITIVE, QR_SIZE, b, c),
{
    lemma_double_of_sum(a, b);
    if c == 0 {
    } else {
        lemma_qr_exp_of_log(c);
        let j = gf_log(QR_PRIMITIVE, QR_SIZE, c);
        lemma_product_with_power(a, j);
        lemma_product_with_power(b, j);
        lemma_product_with_power((a ^ b) as u32, j);
        lemma_doubled_sum(a, b, j);
    }
}

/// In the field of the QR code the product of two elements other than zero is an
/// element other than zero, and its logarithm is the sum of their logarithms, modulo 255.
pub proof fn lemma_qr_log_of_product(a: u32, b: u32)
    requires
        1 <= a < 256,
        1 <= b < 256,
    ensures
        1 <= gf_mul(QR_PRIMITIVE, QR_SIZE, a, b) < 256,
        gf_log(QR_PRIMITIVE, QR_SIZE, gf_mul(QR_PRIMITIVE, QR_SIZE, a, b)) == (gf_log(
            QR_PRIMITIVE,
            QR_SIZE,
            a,
        ) + gf_log(QR_PRIMITIVE, QR_SIZE, b)) % 255,
{
    lemma_qr_exp_of_log(a);
    lemma_qr_exp_of_log(b);
    let e = ((gf_log(QR_PRIMITIVE, QR_SIZE, a) + gf_log(QR_PRIMITIVE, QR_SIZE, b)) % 255) as nat;
    lemma_qr_powers(e);
    lemma_entries(e as int);
    lemma_qr_log_of_power(e);
}

/// In the field of the QR code the product of three elements does not depend on the
/// order in which the two products are formed.
pub proof fn lemma_qr_associates(a: u32, b: u32, c: u32)
    requires
        a < 256,
        b < 256,
        c < 256,
    ensures
        gf_mul(QR_PRIMITIVE, QR_SIZE, gf_mul(QR_PRIMITIVE, QR_SIZE, a, b), c) == gf_mul(
            QR_PRIMITIVE,
            QR_SIZE,
            a,
            gf_mul(QR_PRIMITIVE, QR_SIZE, b, c),
        ),
{
    if a != 0 && b != 0 && c != 0 {
        lemma_qr_log_of_product(a, b);
        lemma_qr_log_of_product(b, c);
        let la = gf_log(QR_PRIMITIVE, QR_SIZE, a) as int;
        let lb = gf_log(QR_PRIMITIVE, QR_SIZE, b) as int;
        let lc = gf_log(QR_PRIMITIVE, QR_SIZE, c) as int;
        assert(((la + lb) % 255 + lc) % 255 == (la + (lb + lc) % 255) % 255);
    } else if a != 0 && b != 0 {
        lemma_qr_log_of_product(a, b);
    } else if b != 0 && c != 0 {
        lemma_qr_log_of_product(b, c);
    }
}

/// In the field of the QR code the product of an element and 1 is the element.
pub proof fn lemma_qr_one(a: u32)
    requires
        a < 256,
    ensures
        gf_mul(QR_PRIMITIVE, QR_SIZE, a, 1) == a,
{
    if a != 0 {
        lemma_qr_exp_of_log(a);
        lemma_qr_powers(0);
        lemma_entries(0);
        lemma_qr_log_of_power(0);
    }
}

} // verus!
