//! Sample values. A value is an integer, or a binary64 float held by its bit
//! pattern; the comparisons that the parser makes on floats are decided on
//! the bits, as IEEE 754 orders them.
use vstd::prelude::*;

verus! {

/// A sample value: `Int` when the text reads as an `i64`, else the float it
/// reads as, by its IEEE 754 binary64 bit pattern.
#[derive(Clone, Copy, Debug, PartialEq, Eq, Structural)]
pub enum MetricNumber {
    Int(i64),
    Float(u64),
}

/// 2 to the power `n`.
pub open spec fn two_pow(n: nat) -> nat
    decreases n,
{
    if n == 0 {
        1
    } else {
        2 * two_pow((n - 1) as nat)
    }
}

pub const SIGN_BIT: u64 = 0x8000_0000_0000_0000;

pub const POSITIVE_INFINITY: u64 = 0x7FF0_0000_0000_0000;

pub const ONE: u64 = 0x3FF0_0000_0000_0000;

/// The biased exponent field of a binary64 bit pattern.
pub open spec fn exponent_field(b: u64) -> int {
    ((b as int) / 0x10_0000_0000_0000) % 2048
}

/// The fraction field of a binary64 bit pattern.
pub open spec fn fraction_field(b: u64) -> int {
    (b as int) % 0x10_0000_0000_0000
}

/// NaN: all exponent bits set and a non-zero fraction.
pub open spec fn is_nan(b: u64) -> bool {
    exponent_field(b) == 2047 && fraction_field(b) != 0
}

/// A key that orders the non-NaN floats as IEEE 754 does: positive
/// patterns by their bits, negative ones reversed; both zeros have key 0.
pub open spec fn float_key(b: u64) -> int {
    if b < SIGN_BIT {
        b as int
    } else {
        -((b - SIGN_BIT) as int)
    }
}

/// Float `a < b`.
pub open spec fn float_lt(a: u64, b: u64) -> bool {
    !is_nan(a) && !is_nan(b) && float_key(a) < float_key(b)
}

/// Float `a >= b`.
pub open spec fn float_ge(a: u64, b: u64) -> bool {
    !is_nan(a) && !is_nan(b) && float_key(a) >= float_key(b)
}

/// Float `x < 0.0`.
pub open spec fn float_negative(b: u64) -> bool {
    !is_nan(b) && float_key(b) < 0
}

/// The number of binary digits of `m`.
pub open spec fn bit_len(m: nat) -> nat
    decreases m,
{
    if m == 0 {
        0
    } else {
        1 + bit_len(m / 2)
    }
}

/// The bit pattern of `m as f64` for `1 <= m <= 2^63`: `m` rounded to 53
/// significant bits, ties to even. A round-up to `2^53` carries into the
/// exponent through the sum.
pub open spec fn positive_int_bits(m: nat) -> int {
    let len = bit_len(m);
    if len <= 53 {
        (len - 1 + 1023) * 0x10_0000_0000_0000 + (m * two_pow((53 - len) as nat) - 0x10_0000_0000_0000)
    } else {
        let shift = (len - 53) as nat;
        let q = m / two_pow(shift);
        let r = m % two_pow(shift);
        let half = two_pow((shift - 1) as nat);
        let rounded = if r > half || (r == half && q % 2 == 1) {
            q + 1
        } else {
            q
        };
        (len - 1 + 1023) * 0x10_0000_0000_0000 + (rounded - 0x10_0000_0000_0000)
    }
}

/// The order key of `i as f64`.
pub open spec fn int_key(i: i64) -> int {
    if i == 0 {
        0
    } else if i > 0 {
        positive_int_bits(i as nat)
    } else {
        -positive_int_bits((-i) as nat)
    }
}

/// The order key of `n.as_f64()`, or `None` for NaN.
pub open spec fn number_key(n: MetricNumber) -> Option<int> {
    match n {
        MetricNumber::Int(i) => Some(int_key(i)),
        MetricNumber::Float(b) => if is_nan(b) {
            None
        } else {
            Some(float_key(b))
        },
    }
}

/// `a.as_f64() < b.as_f64()`.
pub open spec fn number_lt(a: MetricNumber, b: MetricNumber) -> bool {
    match (number_key(a), number_key(b)) {
        (Some(x), Some(y)) => x < y,
        _ => false,
    }
}

/// `n.as_f64() < 0.0`.
pub open spec fn number_negative(n: MetricNumber) -> bool {
    match n {
        MetricNumber::Int(i) => i < 0,
        MetricNumber::Float(b) => float_negative(b),
    }
}

/// `n.as_f64().is_nan()`.
pub open spec fn number_is_nan(n: MetricNumber) -> bool {
    match n {
        MetricNumber::Int(_) => false,
        MetricNumber::Float(b) => is_nan(b),
    }
}

/// Whether a finite or infinite float equals its rounding to an integer.
pub open spec fn float_is_integral(b: u64) -> bool {
    let e = exponent_field(b);
    let f = fraction_field(b);
    if e == 2047 {
        f == 0
    } else if e == 0 {
        f == 0
    } else if e >= 1075 {
        true
    } else if e < 1023 {
        false
    } else {
        f % (two_pow((1075 - e) as nat) as int) == 0
    }
}

/// The magnitude of an integral finite float.
pub open spec fn float_magnitude(b: u64) -> int {
    let e = exponent_field(b);
    let f = fraction_field(b);
    if e == 0 {
        0
    } else if e >= 1075 {
        (0x10_0000_0000_0000 + f) * two_pow((e - 1075) as nat)
    } else {
        (0x10_0000_0000_0000 + f) / (two_pow((1075 - e) as nat) as int)
    }
}

/// `f as i64` for an integral float: its value, saturated to the `i64` range.
pub open spec fn float_to_i64(b: u64) -> i64 {
    let neg = b >= SIGN_BIT;
    if exponent_field(b) == 2047 {
        if neg {
            i64::MIN
        } else {
            i64::MAX
        }
    } else {
        let m = float_magnitude(b);
        if neg {
            if m > 0x8000_0000_0000_0000 {
                i64::MIN
            } else {
                (-m) as i64
            }
        } else {
            if m > 0x7FFF_FFFF_FFFF_FFFF {
                i64::MAX
            } else {
                m as i64
            }
        }
    }
}

/// `n.as_i64()`: an `Int` as it is; a `Float` when it equals its rounding,
/// converted as `f as i64` converts it.
pub open spec fn number_as_i64(n: MetricNumber) -> Option<i64> {
    match n {
        MetricNumber::Int(i) => Some(i),
        MetricNumber::Float(b) => if !is_nan(b) && float_is_integral(b) {
            Some(float_to_i64(b))
        } else {
            None
        },
    }
}

pub fn nan(b: u64) -> (r: bool)
    ensures
        r == is_nan(b),
{
    let e = (b / 0x10_0000_0000_0000) % 2048;
    let f = b % 0x10_0000_0000_0000;
    e == 2047 && f != 0
}

pub fn key_of_float(b: u64) -> (k: i64)
    ensures
        k == float_key(b),
{
    if b < SIGN_BIT {
        b as i64
    } else {
        let m = b - SIGN_BIT;
        -(m as i64)
    }
}

pub fn lt_float(a: u64, b: u64) -> (r: bool)
    ensures
        r == float_lt(a, b),
{
    !nan(a) && !nan(b) && key_of_float(a) < key_of_float(b)
}

pub fn ge_float(a: u64, b: u64) -> (r: bool)
    ensures
        r == float_ge(a, b),
{
    !nan(a) && !nan(b) && key_of_float(a) >= key_of_float(b)
}

pub fn negative_float(b: u64) -> (r: bool)
    ensures
        r == float_negative(b),
{
    !nan(b) && key_of_float(b) < 0
}

/// 2 to the power `n`, for `n < 64`.
fn pow2_u64(n: u64) -> (p: u64)
    requires
        n < 64,
    ensures
        p == two_pow(n as nat),
{
    proof {
        lemma_two_pow_values();
    }
    let mut p: u64 = 1;
    let mut k: u64 = 0;
    while k < n
        invariant
            k <= n < 64,
            p == two_pow(k as nat),
            two_pow(63) == 0x8000_0000_0000_0000,
        decreases n - k,
    {
        proof {
            lemma_two_pow_mono((k + 1) as nat, 63);
        }
        p = p * 2;
        k = k + 1;
    }
    p
}

proof fn lemma_two_pow_pos(k: nat)
    ensures
        two_pow(k) >= 1,
    decreases k,
{
    if k > 0 {
        lemma_two_pow_pos((k - 1) as nat);
    }
}

proof fn lemma_bit_len(m: nat)
    requires
        m >= 1,
    ensures
        bit_len(m) >= 1,
        two_pow((bit_len(m) - 1) as nat) <= m < two_pow(bit_len(m)),
    decreases m,
{
    assert(bit_len(m) == 1 + bit_len(m / 2));
    if m >= 2 {
        lemma_bit_len(m / 2);
        let l = bit_len(m / 2);
        assert(two_pow(l) == 2 * two_pow((l - 1) as nat));
        assert(two_pow((l + 1) as nat) == 2 * two_pow(l));
    } else {
        assert(bit_len(0) == 0);
        assert(two_pow(1) == 2 * two_pow(0));
    }
}

proof fn lemma_bit_len_le(m: nat, n: nat)
    requires
        m < two_pow(n),
    ensures
        bit_len(m) <= n,
    decreases m,
{
    if m > 0 {
        assert(n > 0);
        assert(two_pow(n) == 2 * two_pow((n - 1) as nat));
        lemma_bit_len_le(m / 2, (n - 1) as nat);
    }
}

fn bit_len_u64(m: u64) -> (l: u64)
    ensures
        l == bit_len(m as nat),
        l <= 64,
{
    proof {
        lemma_two_pow_values();
        lemma_bit_len_le(m as nat, 64);
    }
    let mut l: u64 = 0;
    let mut x: u64 = m;
    while x > 0
        invariant
            l + bit_len(x as nat) == bit_len(m as nat),
            bit_len(m as nat) <= 64,
        decreases x,
    {
        x = x / 2;
        l = l + 1;
    }
    l
}

/// The bit pattern of `m as f64`, for `1 <= m <= 2^63`.
fn positive_int_bits_exec(m: u64) -> (b: u64)
    requires
        1 <= m <= 0x8000_0000_0000_0000,
    ensures
        b == positive_int_bits(m as nat),
{
    let len = bit_len_u64(m);
    proof {
        lemma_bit_len(m as nat);
        lemma_two_pow_values();
        if len > 64 {
            assert(false);
        }
        if len == 64 {
            assert(two_pow(63) <= m);
        }
    }
    if len <= 53 {
        let p = pow2_u64(53 - len);
        proof {
            lemma_two_pow_adds((len - 1) as nat, (53 - len) as nat);
            lemma_two_pow_adds(len as nat, (53 - len) as nat);
            lemma_two_pow_le_mul(m as nat, (len - 1) as nat, (53 - len) as nat);
            lemma_two_pow_lt_mul(m as nat, len as nat, (53 - len) as nat);
        }
        let scaled = m * p;
        (len - 1 + 1023) * 0x10_0000_0000_0000 + (scaled - 0x10_0000_0000_0000)
    } else {
        let shift = len - 53;
        let p = pow2_u64(shift);
        proof {
            lemma_two_pow_pos(shift as nat);
        }
        let q = m / p;
        let r = m % p;
        let half = pow2_u64(shift - 1);
        proof {
            lemma_div_bounds(m as nat, p as nat, (len - 1) as nat, shift as nat);
        }
        let rounded = if r > half || (r == half && q % 2 == 1) {
            q + 1
        } else {
            q
        };
        (len - 1 + 1023) * 0x10_0000_0000_0000 + (rounded - 0x10_0000_0000_0000)
    }
}

proof fn lemma_two_pow_values()
    ensures
        two_pow(52) == 0x10_0000_0000_0000,
        two_pow(53) == 0x20_0000_0000_0000,
        two_pow(62) == 0x4000_0000_0000_0000,
        two_pow(63) == 0x8000_0000_0000_0000,
        two_pow(64) == 0x1_0000_0000_0000_0000,
{
    reveal_with_fuel(two_pow, 17);
    assert(two_pow(16) == 0x10000);
    assert(two_pow(4) == 16);
    assert(two_pow(5) == 32);
    assert(two_pow(14) == 0x4000);
    assert(two_pow(15) == 0x8000);
    lemma_two_pow_adds(16, 16);
    lemma_two_pow_adds(16, 15);
    lemma_two_pow_adds(16, 14);
    lemma_two_pow_adds(16, 5);
    lemma_two_pow_adds(16, 4);
    assert(two_pow(20) == 0x10_0000);
    assert(two_pow(21) == 0x20_0000);
    assert(two_pow(30) == 0x4000_0000);
    assert(two_pow(31) == 0x8000_0000);
    assert(two_pow(32) == 0x1_0000_0000);
    lemma_two_pow_adds(32, 32);
    lemma_two_pow_adds(32, 31);
    lemma_two_pow_adds(32, 30);
    lemma_two_pow_adds(32, 21);
    lemma_two_pow_adds(32, 20);
}

proof fn lemma_two_pow_adds(a: nat, b: nat)
    ensures
        two_pow(a + b) == two_pow(a) * two_pow(b),
    decreases a,
{
    if a > 0 {
        let a1 = (a - 1) as nat;
        lemma_two_pow_adds(a1, b);
        assert(a + b == (a1 + b) + 1);
        assert(two_pow(a + b) == 2 * two_pow(a1 + b));
        assert(two_pow(a) == 2 * two_pow(a1));
        let x = two_pow(a1);
        let y = two_pow(b);
        assert(2 * (x * y) == (2 * x) * y) by (nonlinear_arith);
    } else {
        assert(two_pow(0) == 1);
        assert(a + b == b);
    }
}

proof fn lemma_two_pow_mono(a: nat, b: nat)
    requires
        a <= b,
    ensures
        two_pow(a) <= two_pow(b),
    decreases b,
{
    if a < b {
        lemma_two_pow_mono(a, (b - 1) as nat);
        lemma_two_pow_pos((b - 1) as nat);
        assert(two_pow(b) == 2 * two_pow((b - 1) as nat));
    }
}

proof fn lemma_two_pow_le_mul(m: nat, a: nat, b: nat)
    requires
        two_pow(a) <= m,
    ensures
        two_pow(a) * two_pow(b) <= m * two_pow(b),
{
    lemma_two_pow_pos(b);
    let x = two_pow(a);
    let y = two_pow(b);
    assert(x * y <= m * y) by (nonlinear_arith)
        requires
            x <= m,
            y >= 1,
    ;
}

proof fn lemma_two_pow_lt_mul(m: nat, a: nat, b: nat)
    requires
        m < two_pow(a),
    ensures
        m * two_pow(b) < two_pow(a) * two_pow(b),
{
    lemma_two_pow_pos(b);
    let x = two_pow(a);
    let y = two_pow(b);
    assert(m * y < x * y) by (nonlinear_arith)
        requires
            m < x,
            y >= 1,
    ;
}

proof fn lemma_div_bounds(m: nat, p: nat, top: nat, shift: nat)
    requires
        p == two_pow(shift),
        shift >= 1,
        top == 52 + shift,
        two_pow(top) <= m < two_pow(top + 1),
    ensures
        0x10_0000_0000_0000 <= m / p < 0x20_0000_0000_0000,
{
    lemma_two_pow_adds(52, shift);
    lemma_two_pow_adds(53, shift);
    lemma_two_pow_pos(shift);
    lemma_two_pow_values();
    let q = m / p;
    assert(q * p <= m < q * p + p) by (nonlinear_arith)
        requires
            p >= 1,
            q == m / p,
    ;
    assert(0x10_0000_0000_0000 <= q) by (nonlinear_arith)
        requires
            0x10_0000_0000_0000 * p <= m,
            m < q * p + p,
            p >= 1,
    ;
    assert(q < 0x20_0000_0000_0000) by (nonlinear_arith)
        requires
            m < 0x20_0000_0000_0000 * p,
            q * p <= m,
            p >= 1,
    ;
}

proof fn lemma_positive_int_bits_bound(m: nat)
    requires
        1 <= m <= 0x8000_0000_0000_0000,
    ensures
        0 < positive_int_bits(m) < 0x7FF0_0000_0000_0000,
{
    lemma_bit_len(m);
    lemma_two_pow_values();
    lemma_bit_len_le(m, 64);
    let len = bit_len(m);
    if len == 64 {
        assert(two_pow(63) <= m);
    }
    if len <= 53 {
        lemma_two_pow_adds((len - 1) as nat, (53 - len) as nat);
        lemma_two_pow_adds(len as nat, (53 - len) as nat);
        lemma_two_pow_le_mul(m, (len - 1) as nat, (53 - len) as nat);
        lemma_two_pow_lt_mul(m, len as nat, (53 - len) as nat);
    } else {
        let shift = (len - 53) as nat;
        lemma_two_pow_pos(shift);
        lemma_div_bounds(m, two_pow(shift), (len - 1) as nat, shift);
    }
}

/// The order key of `i as f64`.
pub fn key_of_int(i: i64) -> (k: i64)
    ensures
        k == int_key(i),
{
    if i == 0 {
        0
    } else if i > 0 {
        proof {
            lemma_positive_int_bits_bound(i as nat);
        }
        positive_int_bits_exec(i as u64) as i64
    } else {
        let m: u64 = if i == i64::MIN {
            0x8000_0000_0000_0000
        } else {
            (-i) as u64
        };
        proof {
            lemma_positive_int_bits_bound(m as nat);
        }
        let b = positive_int_bits_exec(m);
        -(b as i64)
    }
}

/// The order key of `n.as_f64()`, or `None` for NaN.
pub fn key_of_number(n: MetricNumber) -> (k: Option<i64>)
    ensures
        k == match number_key(n) {
            Some(x) => Some(x as i64),
            None => None,
        },
        number_key(n) matches Some(x) ==> i64::MIN <= x <= i64::MAX,
{
    match n {
        MetricNumber::Int(i) => Some(key_of_int(i)),
        MetricNumber::Float(b) => if nan(b) {
            None
        } else {
            Some(key_of_float(b))
        },
    }
}

/// `a.as_f64() < b.as_f64()`.
pub fn lt_number(a: MetricNumber, b: MetricNumber) -> (r: bool)
    ensures
        r == number_lt(a, b),
{
    match (key_of_number(a), key_of_number(b)) {
        (Some(x), Some(y)) => x < y,
        _ => false,
    }
}

/// `n.as_f64() < 0.0`.
pub fn negative_number(n: MetricNumber) -> (r: bool)
    ensures
        r == number_negative(n),
{
    match n {
        MetricNumber::Int(i) => i < 0,
        MetricNumber::Float(b) => negative_float(b),
    }
}

/// `n.as_f64().is_nan()`.
pub fn nan_number(n: MetricNumber) -> (r: bool)
    ensures
        r == number_is_nan(n),
{
    match n {
        MetricNumber::Int(_) => false,
        MetricNumber::Float(b) => nan(b),
    }
}

/// `n.as_i64()`.
pub fn as_i64(n: MetricNumber) -> (r: Option<i64>)
    ensures
        r == number_as_i64(n),
{
    match n {
        MetricNumber::Int(i) => Some(i),
        MetricNumber::Float(b) => {
            if nan(b) {
                return None;
            }
            let e = (b / 0x10_0000_0000_0000) % 2048;
            let f = b % 0x10_0000_0000_0000;
            let neg = b >= SIGN_BIT;
            proof {
                lemma_two_pow_values();
            }
            if e == 2047 {
                return if f == 0 {
                    Some(
                        if neg {
                            i64::MIN
                        } else {
                            i64::MAX
                        },
                    )
                } else {
                    None
                };
            }
            if e == 0 {
                return if f == 0 {
                    Some(float_to_i64_exec(b, e, f, neg))
                } else {
                    None
                };
            }
            if e >= 1075 {
                return Some(float_to_i64_exec(b, e, f, neg));
            }
            if e < 1023 {
                return None;
            }
            let p = pow2_u64(1075 - e);
            proof {
                lemma_two_pow_pos((1075 - e) as nat);
            }
            if f % p == 0 {
                Some(float_to_i64_exec(b, e, f, neg))
            } else {
                None
            }
        },
    }
}

/// `f as i64` for an integral float that is not NaN nor infinite.
fn float_to_i64_exec(b: u64, e: u64, f: u64, neg: bool) -> (r: i64)
    requires
        e == exponent_field(b),
        f == fraction_field(b),
        neg == (b >= SIGN_BIT),
        e < 2047,
        e == 0 || e >= 1023,
    ensures
        r == float_to_i64(b),
{
    proof {
        lemma_two_pow_values();
    }
    let m: u128 = if e == 0 {
        0
    } else if e >= 1075 {
        if e >= 1075 + 12 {
            proof {
                let k = (e - 1075) as nat;
                lemma_two_pow_mono(12, k);
                assert(two_pow(12) == 4096) by {
                    reveal_with_fuel(two_pow, 13);
                }
                lemma_two_pow_adds(52, 12);
                let big = (0x10_0000_0000_0000 + f) as nat;
                let pk = two_pow(k);
                assert(big * pk >= 0x10_0000_0000_0000 * 4096) by (nonlinear_arith)
                    requires
                        big >= 0x10_0000_0000_0000,
                        pk >= 4096,
                ;
            }
            0x1_0000_0000_0000_0000
        } else {
            let p = pow2_u64(e - 1075);
            proof {
                lemma_two_pow_mono((e - 1075) as nat, 11);
                assert(two_pow(11) == 2048) by {
                    reveal_with_fuel(two_pow, 12);
                }
                assert((0x10_0000_0000_0000 + f) * p <= 0x20_0000_0000_0000 * 2048) by (
                nonlinear_arith)
                    requires
                        f < 0x10_0000_0000_0000,
                        p <= 2048,
                ;
            }
            (0x10_0000_0000_0000 + f) as u128 * p as u128
        }
    } else {
        let p = pow2_u64(1075 - e);
        proof {
            lemma_two_pow_pos((1075 - e) as nat);
        }
        ((0x10_0000_0000_0000 + f) / p) as u128
    };
    proof {
        if e >= 1075 + 12 {
            assert(float_magnitude(b) >= 0x1_0000_0000_0000_0000);
        } else {
            assert(float_magnitude(b) == m);
        }
    }
    if neg {
        if m > 0x8000_0000_0000_0000 {
            i64::MIN
        } else if m == 0x8000_0000_0000_0000 {
            i64::MIN
        } else {
            -(m as i64)
        }
    } else {
        if m > 0x7FFF_FFFF_FFFF_FFFF {
            i64::MAX
        } else {
            m as i64
        }
    }
}

/// The value of a string of decimal digits.
pub open spec fn digits_value(t: Seq<char>) -> int
    decreases t.len(),
{
    if t.len() == 0 {
        0
    } else {
        10 * digits_value(t.drop_last()) + digit_value(t.last())
    }
}

pub open spec fn is_digit(c: char) -> bool {
    '0' <= c <= '9'
}

pub open spec fn digit_value(c: char) -> int {
    (c as u32) - ('0' as u32)
}

/// Whether every character is a decimal digit.
pub open spec fn all_digits(t: Seq<char>) -> bool {
    forall|i: int| 0 <= i < t.len() ==> is_digit(#[trigger] t[i])
}

/// What `str::parse::<i64>` gives: an optional `+` or `-`, then at least one
/// decimal digit and nothing else, the value in range.
pub open spec fn parse_i64_spec(t: Seq<char>) -> Option<i64> {
    let neg = t.len() > 0 && t[0] == '-';
    let start: int = if t.len() > 0 && (t[0] == '-' || t[0] == '+') {
        1
    } else {
        0
    };
    let ds = t.subrange(start, t.len() as int);
    if ds.len() == 0 || !all_digits(ds) {
        None
    } else {
        let v = if neg {
            -digits_value(ds)
        } else {
            digits_value(ds)
        };
        if i64::MIN <= v <= i64::MAX {
            Some(v as i64)
        } else {
            None
        }
    }
}

proof fn lemma_digits_value_nonneg(t: Seq<char>)
    requires
        forall|i: int| 0 <= i < t.len() ==> is_digit(#[trigger] t[i]),
    ensures
        digits_value(t) >= 0,
    decreases t.len(),
{
    if t.len() > 0 {
        lemma_digits_value_nonneg(t.drop_last());
    }
}

proof fn lemma_digits_value_grows(t: Seq<char>, k: int)
    requires
        0 <= k <= t.len(),
        forall|i: int| 0 <= i < t.len() ==> is_digit(#[trigger] t[i]),
    ensures
        digits_value(t.take(k)) <= digits_value(t),
    decreases t.len() - k,
{
    if k < t.len() {
        lemma_digits_value_grows(t, k + 1);
        assert(t.take(k + 1).drop_last() =~= t.take(k));
        assert(t.take(k + 1).last() == t[k]);
        assert(is_digit(t[k]));
        assert forall|i: int| 0 <= i < t.take(k).len() implies is_digit(#[trigger] t.take(k)[i]) by {
            assert(t.take(k)[i] == t[i]);
        }
        lemma_digits_value_nonneg(t.take(k));
    } else {
        assert(t.take(k) =~= t);
    }
}

/// `str::parse::<i64>` on the characters of `t`.
pub fn parse_i64(t: &Vec<char>) -> (r: Option<i64>)
    ensures
        r == parse_i64_spec(t@),
{
    let n = t.len();
    let neg = n > 0 && t[0] == '-';
    let start: usize = if n > 0 && (t[0] == '-' || t[0] == '+') {
        1
    } else {
        0
    };
    let ghost ds = t@.subrange(start as int, n as int);
    if start == n {
        return None;
    }
    let mut acc: u64 = 0;
    let mut i: usize = start;
    while i < n
        invariant
            start <= i <= n == t.len(),
            start < n,
            start as int == (if n > 0 && (t@[0] == '-' || t@[0] == '+') {
                1int
            } else {
                0int
            }),
            neg == (n > 0 && t@[0] == '-'),
            ds == t@.subrange(start as int, n as int),
            forall|j: int| 0 <= j < i - start ==> is_digit(#[trigger] ds[j]),
            acc == digits_value(ds.take(i - start)),
            acc <= 0x8000_0000_0000_0000,
        decreases n - i,
    {
        let c = t[i];
        assert(ds[i - start] == c);
        if !('0' <= c && c <= '9') {
            assert(!is_digit(ds[i - start]));
            assert(!all_digits(ds));
            return None;
        }
        assert(ds.take(i - start + 1).drop_last() =~= ds.take(i - start));
        let d = (c as u32 - '0' as u32) as u64;
        if acc > 0x0CCC_CCCC_CCCC_CCCC || acc * 10 + d > 0x8000_0000_0000_0000 {
            proof {
                let k = i - start + 1;
                assert forall|j: int| 0 <= j < k implies is_digit(#[trigger] ds.take(k)[j]) by {
                    if j < i - start {
                        assert(ds.take(k)[j] == ds[j]);
                    }
                }
                assert(ds.take(k).drop_last() =~= ds.take(i - start));
                assert(ds.take(k).last() == c);
                assert(digits_value(ds.take(k)) == 10 * acc + d);
                assert(digits_value(ds.take(k)) > 0x8000_0000_0000_0000);
                if all_digits(ds) {
                    lemma_digits_value_grows(ds, k);
                    assert(digits_value(ds) > 0x8000_0000_0000_0000);
                }
                assert(parse_i64_spec(t@) == None::<i64>);
            }
            return None;
        }
        acc = acc * 10 + d;
        i = i + 1;
    }
    assert(ds.take(n - start) =~= ds);
    if neg {
        if acc == 0x8000_0000_0000_0000 {
            Some(i64::MIN)
        } else {
            Some(-(acc as i64))
        }
    } else {
        if acc > 0x7FFF_FFFF_FFFF_FFFF {
            None
        } else {
            Some(acc as i64)
        }
    }
}

} // verus!
