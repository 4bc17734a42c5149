//! IEEE-754 numbers by their bits.
//!
//! A real is carried as the 64 bits of a double, a vector component as the 32
//! bits of a float. Ordering, sign, truncation and the conversions from and to
//! integers are integer arithmetic on those bits. What needs a floating-point
//! unit (sums, products, roots, decimal text) is asked for: an [`RealAsk`] names
//! the operation with its operands, and [`Reals`] holds the answers given so far.
use vstd::arithmetic::power2::{ lemma_pow2_adds, lemma_pow2_pos, lemma_pow2_strictly_increases, lemma_pow2_unfold, pow2, };
use vstd::prelude::*;
use crate::text::magnitude;

verus! {

/// The outcome of comparing two ordered things.
#[derive(Clone, Copy, Debug, PartialEq, Eq, Structural)]
pub enum Order {
    Less,
    Equal,
    Greater,
}

impl Order {
    pub open spec fn flipped(self) -> Order {
        match self {
            Order::Less => Order::Greater,
            Order::Equal => Order::Equal,
            Order::Greater => Order::Less,
        }
    }

    pub fn reverse(self) -> (r: Order)
        ensures
            r == self.flipped(),
    {
        match self {
            Order::Less => Order::Greater,
            Order::Equal => Order::Equal,
            Order::Greater => Order::Less,
        }
    }
}

pub open spec fn int_order(a: int, b: int) -> Order {
    if a < b {
        Order::Less
    } else if a > b {
        Order::Greater
    } else {
        Order::Equal
    }
}

pub const SIGN_BIT: u64 = 0x8000_0000_0000_0000;

pub const INF_BITS: u64 = 0x7FF0_0000_0000_0000;

/// The bits of `1e15`, from where a real no longer prints as an integer.
pub const BIG_BITS: u64 = 0x430c_6bf5_2634_0000;

pub const SIGN_BIT32: u32 = 0x8000_0000;

pub const INF_BITS32: u32 = 0x7F80_0000;

/// The bits of the single-precision `1e15`.
pub const BIG_BITS32: u32 = 0x5863_5fa9;

/// The bits of the circle constant.
pub const PI_BITS: u64 = 0x4009_21fb_5444_2d18;

/// Whether the sign bit is set.
pub open spec fn real_neg(b: u64) -> bool {
    b >= SIGN_BIT
}

/// The bits without the sign.
pub open spec fn real_mag(b: u64) -> nat {
    if b >= SIGN_BIT {
        (b - SIGN_BIT) as nat
    } else {
        b as nat
    }
}

pub open spec fn real_nan(b: u64) -> bool {
    real_mag(b) > INF_BITS
}

pub open spec fn real_finite(b: u64) -> bool {
    real_mag(b) < INF_BITS
}

/// The place of a number on the real line: two numbers that are not NaN compare
/// as their ranks do, and the two zeros share one.
pub open spec fn real_rank(b: u64) -> int {
    if b >= SIGN_BIT {
        -(b - SIGN_BIT)
    } else {
        b as int
    }
}

/// Comparison of two reals; unknown when either is NaN.
pub open spec fn real_order(a: u64, b: u64) -> Option<Order> {
    if real_nan(a) || real_nan(b) {
        None
    } else {
        Some(int_order(real_rank(a), real_rank(b)))
    }
}

pub fn mag_bits(b: u64) -> (r: u64)
    ensures
        r == real_mag(b),
        r < SIGN_BIT,
{
    if b >= SIGN_BIT {
        b - SIGN_BIT
    } else {
        b
    }
}

pub fn is_nan(b: u64) -> (r: bool)
    ensures
        r == real_nan(b),
{
    mag_bits(b) > INF_BITS
}

pub fn compare_reals(a: u64, b: u64) -> (r: Option<Order>)
    ensures
        r == real_order(a, b),
{
    if is_nan(a) || is_nan(b) {
        return None;
    }
    let x: i64 = if a >= SIGN_BIT {
        0 - ((a - SIGN_BIT) as i64)
    } else {
        a as i64
    };
    let y: i64 = if b >= SIGN_BIT {
        0 - ((b - SIGN_BIT) as i64)
    } else {
        b as i64
    };
    if x < y {
        Some(Order::Less)
    } else if x > y {
        Some(Order::Greater)
    } else {
        Some(Order::Equal)
    }
}

/// `-x`: the sign bit flipped.
pub open spec fn real_negate(b: u64) -> u64 {
    if b >= SIGN_BIT {
        (b - SIGN_BIT) as u64
    } else {
        (b + SIGN_BIT) as u64
    }
}

pub fn negate(b: u64) -> (r: u64)
    ensures
        r == real_negate(b),
{
    if b >= SIGN_BIT {
        b - SIGN_BIT
    } else {
        b + SIGN_BIT
    }
}

// ---- significand and exponent ----------------------------------------------

/// The biased exponent of magnitude bits `m` with `p` fraction bits; subnormal
/// numbers share the exponent of the smallest normal ones.
pub open spec fn exponent(m: nat, p: nat) -> nat {
    let e = m / pow2(p);
    if e == 0 {
        1
    } else {
        e
    }
}

/// The significand: the fraction bits, with the leading one unless subnormal.
pub open spec fn significand(m: nat, p: nat) -> nat {
    if m / pow2(p) == 0 {
        m % pow2(p)
    } else {
        m % pow2(p) + pow2(p)
    }
}

/// The integer part of a finite magnitude. `off` is the exponent at which the
/// significand counts units.
pub open spec fn whole_part(m: nat, p: nat, off: nat) -> nat {
    let e = exponent(m, p);
    if e >= off {
        significand(m, p) * pow2((e - off) as nat)
    } else {
        significand(m, p) / pow2((off - e) as nat)
    }
}

/// Whether a finite magnitude has no fractional part.
pub open spec fn no_fraction(m: nat, p: nat, off: nat) -> bool {
    let e = exponent(m, p);
    e >= off || significand(m, p) % pow2((off - e) as nat) == 0
}

/// The magnitude rounded to an integer, halves away from zero.
pub open spec fn nearest_whole(m: nat, p: nat, off: nat) -> nat {
    let e = exponent(m, p);
    if e >= off {
        significand(m, p) * pow2((e - off) as nat)
    } else {
        (2 * significand(m, p) + pow2((off - e) as nat)) / (2 * pow2((off - e) as nat))
    }
}

pub open spec fn clamp_i64(n: int) -> i64 {
    if n > i64::MAX {
        i64::MAX
    } else if n < i64::MIN {
        i64::MIN
    } else {
        n as i64
    }
}

pub open spec fn signed(neg: bool, n: nat) -> int {
    if neg {
        -(n as int)
    } else {
        n as int
    }
}

/// Conversion to an integer: towards zero, saturating, NaN to zero.
pub open spec fn real_to_int(b: u64) -> i64 {
    if real_nan(b) {
        0
    } else {
        clamp_i64(signed(real_neg(b), whole_part(real_mag(b), 52, 1075)))
    }
}

/// Rounding to the nearest integer (halves away from zero), saturating, NaN to
/// zero.
pub open spec fn real_round_int(b: u64) -> i64 {
    if real_nan(b) {
        0
    } else {
        clamp_i64(signed(real_neg(b), nearest_whole(real_mag(b), 52, 1075)))
    }
}

/// Whether a real is finite and integral.
pub open spec fn real_integral(b: u64) -> bool {
    real_finite(b) && no_fraction(real_mag(b), 52, 1075)
}

/// The integer that a real is, where it is one of the range.
pub open spec fn exact_int(b: u64) -> Option<i64> {
    let n = signed(real_neg(b), whole_part(real_mag(b), 52, 1075));
    if real_integral(b) && i64::MIN <= n <= i64::MAX {
        Some(n as i64)
    } else {
        None
    }
}

/// `2^k`.
pub fn power_of_two(k: u64) -> (r: u64)
    requires
        k < 64,
    ensures
        r == pow2(k as nat),
{
    proof {
        vstd::arithmetic::power2::lemma2_to64();
    }
    let mut r: u64 = 1;
    let mut i: u64 = 0;
    while i < k
        invariant
            i <= k < 64,
            r == pow2(i as nat),
        decreases k - i,
    {
        proof {
            lemma_pow2_unfold((i + 1) as nat);
            if i + 1 < 63 {
                lemma_pow2_strictly_increases((i + 1) as nat, 63);
            }
            vstd::arithmetic::power2::lemma2_to64_rest();
        }
        r = r * 2;
        i += 1;
    }
    r
}

proof fn lemma_sizes(m: nat, p: nat)
    ensures
        significand(m, p) < 2 * pow2(p),
        m / pow2(p) > 0 ==> significand(m, p) >= pow2(p),
        pow2(p) > 0,
{
    lemma_pow2_pos(p);
    assert(m % pow2(p) < pow2(p)) by (nonlinear_arith)
        requires
            pow2(p) > 0,
    ;
}

/// The parts of a magnitude: its exponent and significand.
pub fn split_real(m: u64, p: u64) -> (r: (u64, u64))
    requires
        p < 63,
    ensures
        r.0 == exponent(m as nat, p as nat),
        r.1 == significand(m as nat, p as nat),
        r.1 < 2 * pow2(p as nat),
        r.0 > 1 ==> r.1 >= pow2(p as nat),
{
    let unit = power_of_two(p);
    proof {
        lemma_sizes(m as nat, p as nat);
        vstd::arithmetic::power2::lemma2_to64_rest();
        vstd::arithmetic::power2::lemma2_to64();
        if p < 62 {
            lemma_pow2_strictly_increases(p as nat, 62);
        }
    }
    let e: u64 = m / unit;
    let f: u64 = m % unit;
    if e == 0 {
        (1, f)
    } else {
        (e, f + unit)
    }
}

/// The integer part of a magnitude, or `None` from `2^63` on.
pub fn whole_of(m: u64, p: u64, off: u64) -> (r: Option<u64>)
    requires
        p == 52 || p == 23,
        p < off < 10_000,
    ensures
        match r {
            Some(n) => n == whole_part(m as nat, p as nat, off as nat) && n < SIGN_BIT,
            None => whole_part(m as nat, p as nat, off as nat) >= SIGN_BIT,
        },
{
    let (e, s) = split_real(m, p);
    proof {
        vstd::arithmetic::power2::lemma2_to64();
        vstd::arithmetic::power2::lemma2_to64_rest();
    }
    if e >= off {
        let k: u64 = e - off;
        if k > 62 - p {
            proof {
                lemma_pow2_adds(p as nat, (63 - p) as nat);
                if k > 63 - p {
                    lemma_pow2_strictly_increases((63 - p) as nat, k as nat);
                }
                assert(s * pow2(k as nat) >= pow2(p as nat) * pow2((63 - p) as nat))
                    by (nonlinear_arith)
                    requires
                        s >= pow2(p as nat),
                        pow2(k as nat) >= pow2((63 - p) as nat),
                ;
            }
            None
        } else {
            let t = power_of_two(k);
            proof {
                lemma_pow2_adds((p + 1) as nat, (62 - p) as nat);
                lemma_pow2_unfold((p + 1) as nat);
                if k < 62 - p {
                    lemma_pow2_strictly_increases(k as nat, (62 - p) as nat);
                }
                assert(s * t < pow2((p + 1) as nat) * pow2((62 - p) as nat)) by (nonlinear_arith)
                    requires
                        0 <= s < pow2((p + 1) as nat),
                        0 < t <= pow2((62 - p) as nat),
                ;
            }
            Some(s * t)
        }
    } else {
        let k: u64 = off - e;
        if k > p {
            proof {
                lemma_pow2_unfold((p + 1) as nat);
                if k > p + 1 {
                    lemma_pow2_strictly_increases((p + 1) as nat, k as nat);
                }
                assert(s as nat / pow2(k as nat) == 0) by (nonlinear_arith)
                    requires
                        0 <= s < pow2(k as nat),
                ;
            }
            Some(0)
        } else {
            let t = power_of_two(k);
            proof {
                lemma_pow2_pos(k as nat);
                assert(s / t <= s) by (nonlinear_arith)
                    requires
                        t > 0,
                        s >= 0,
                ;
                lemma_pow2_unfold((p + 1) as nat);
            }
            Some(s / t)
        }
    }
}

/// Whether a magnitude has no fractional part.
pub fn fractionless(m: u64, p: u64, off: u64) -> (r: bool)
    requires
        p == 52 || p == 23,
        p < off < 10_000,
    ensures
        r == no_fraction(m as nat, p as nat, off as nat),
{
    let (e, s) = split_real(m, p);
    if e >= off {
        true
    } else {
        let k: u64 = off - e;
        if k > p {
            proof {
                lemma_pow2_unfold((p + 1) as nat);
                if k > p + 1 {
                    lemma_pow2_strictly_increases((p + 1) as nat, k as nat);
                }
                assert(s as nat % pow2(k as nat) == s) by (nonlinear_arith)
                    requires
                        0 <= s < pow2(k as nat),
                ;
            }
            s == 0
        } else {
            proof {
                lemma_pow2_pos(k as nat);
            }
            s % power_of_two(k) == 0
        }
    }
}

/// The magnitude rounded to an integer, or `None` from `2^63` on.
pub fn nearest_of(m: u64) -> (r: Option<u64>)
    ensures
        match r {
            Some(n) => n == nearest_whole(m as nat, 52, 1075) && n < SIGN_BIT,
            None => nearest_whole(m as nat, 52, 1075) >= SIGN_BIT,
        },
{
    let (e, s) = split_real(m, 52);
    proof {
        vstd::arithmetic::power2::lemma2_to64();
        vstd::arithmetic::power2::lemma2_to64_rest();
        lemma_pow2_unfold(53);
    }
    if e >= 1075 {
        whole_of(m, 52, 1075)
    } else {
        let k: u64 = 1075 - e;
        if k > 54 {
            proof {
                lemma_pow2_strictly_increases(54, k as nat);
                lemma_pow2_unfold(54);
                assert((2 * s as nat + pow2(k as nat)) / (2 * pow2(k as nat)) == 0) by (nonlinear_arith)
                    requires
                        0 <= s,
                        2 * s < pow2(k as nat),
                ;
            }
            Some(0)
        } else {
            let t = power_of_two(k);
            proof {
                lemma_pow2_unfold(54);
                if k < 54 {
                    lemma_pow2_strictly_increases(k as nat, 54);
                }
                lemma_pow2_pos(k as nat);
                lemma_pow2_unfold(56);
                lemma_pow2_unfold(55);
                lemma_pow2_strictly_increases(56, 63);
                assert((2 * s + t) / (2 * t) <= 2 * s + t) by (nonlinear_arith)
                    requires
                        t > 0,
                        s >= 0,
                ;
            }
            Some((2 * s + t) / (2 * t))
        }
    }
}

fn with_sign(neg: bool, n: Option<u64>, Ghost(w): Ghost<nat>) -> (r: i64)
    requires
        match n {
            Some(k) => k == w && k < SIGN_BIT,
            None => w >= SIGN_BIT,
        },
    ensures
        r == clamp_i64(signed(neg, w)),
{
    match n {
        Some(k) => if neg {
            0 - (k as i64)
        } else {
            k as i64
        },
        None => if neg {
            i64::MIN
        } else {
            i64::MAX
        },
    }
}

pub fn to_int(b: u64) -> (r: i64)
    ensures
        r == real_to_int(b),
{
    if is_nan(b) {
        0
    } else {
        let m = mag_bits(b);
        let w = whole_of(m, 52, 1075);
        with_sign(b >= SIGN_BIT, w, Ghost(whole_part(m as nat, 52, 1075)))
    }
}

pub fn round_to_int(b: u64) -> (r: i64)
    ensures
        r == real_round_int(b),
{
    if is_nan(b) {
        0
    } else {
        let m = mag_bits(b);
        let w = nearest_of(m);
        with_sign(b >= SIGN_BIT, w, Ghost(nearest_whole(m as nat, 52, 1075)))
    }
}

pub fn is_integral(b: u64) -> (r: bool)
    ensures
        r == real_integral(b),
{
    let m = mag_bits(b);
    m < INF_BITS && fractionless(m, 52, 1075)
}

/// Whether a magnitude is `2^63`.
fn is_two_to_63(m: u64) -> (r: bool)
    ensures
        r == (whole_part(m as nat, 52, 1075) == SIGN_BIT),
{
    let (e, s) = split_real(m, 52);
    proof {
        vstd::arithmetic::power2::lemma2_to64();
        vstd::arithmetic::power2::lemma2_to64_rest();
        lemma_pow2_unfold(53);
        if e >= 1075 {
            let k = (e - 1075) as nat;
            if k < 11 {
                lemma_pow2_strictly_increases(k, 11);
                assert(s * pow2(k) < 0x20_0000_0000_0000 * 1024) by (nonlinear_arith)
                    requires
                        0 <= s < 0x20_0000_0000_0000,
                        0 < pow2(k) <= 1024,
                ;
            } else if k > 11 {
                if k > 12 {
                    lemma_pow2_strictly_increases(12, k);
                }
                assert(s * pow2(k) >= 0x10_0000_0000_0000 * 4096) by (nonlinear_arith)
                    requires
                        s >= 0x10_0000_0000_0000,
                        pow2(k) >= 4096,
                ;
            } else {
                assert(s * pow2(k) == s * 2048) by (nonlinear_arith)
                    requires
                        pow2(k) == 2048,
                ;
            }
        } else {
            let k = (1075 - e) as nat;
            lemma_pow2_pos(k);
            assert(s as nat / pow2(k) <= s) by (nonlinear_arith)
                requires
                    pow2(k) > 0,
                    s >= 0,
            ;
        }
    }
    e == 1086 && s == 0x10_0000_0000_0000
}

/// The integer that a real is, where it is one of the range.
pub fn as_exact_int(b: u64) -> (r: Option<i64>)
    ensures
        r == exact_int(b),
{
    if !is_integral(b) {
        return None;
    }
    let m = mag_bits(b);
    match whole_of(m, 52, 1075) {
        Some(n) => if b >= SIGN_BIT {
            Some(0 - (n as i64))
        } else {
            Some(n as i64)
        },
        None => if b >= SIGN_BIT && is_two_to_63(m) {
            Some(i64::MIN)
        } else {
            None
        },
    }
}

// ---- integers to reals -------------------------------------------------------

/// The number of binary digits of `n`.
pub open spec fn bit_length(n: nat) -> nat
    decreases n,
{
    if n == 0 {
        0
    } else {
        1 + bit_length(n / 2)
    }
}

/// `n / 2^s` rounded to the nearest integer, ties to even.
pub open spec fn round_even(n: nat, s: nat) -> nat {
    let q = n / pow2(s);
    let r = n % pow2(s);
    if 2 * r > pow2(s) || (2 * r == pow2(s) && q % 2 == 1) {
        q + 1
    } else {
        q
    }
}

/// The bits of the double nearest to a positive integer: exponent field and
/// significand added, so that a carry out of the significand moves the exponent.
pub open spec fn real_of_nat(n: nat) -> nat {
    if n == 0 {
        0
    } else {
        let len = bit_length(n);
        let sig = if len <= 53 {
            n * pow2((53 - len) as nat)
        } else {
            round_even(n, (len - 53) as nat)
        };
        ((1021 + len) * pow2(52) + sig) as nat
    }
}

/// The bits of the double nearest to an integer, ties to even.
pub open spec fn real_of_int(i: i64) -> u64 {
    if i < 0 {
        (SIGN_BIT + real_of_nat((-(i as int)) as nat)) as u64
    } else {
        real_of_nat(i as nat) as u64
    }
}

proof fn lemma_bit_length(n: nat)
    requires
        n > 0,
    ensures
        bit_length(n) > 0,
        pow2((bit_length(n) - 1) as nat) <= n < pow2(bit_length(n)),
    decreases n,
{
    if n == 1 {
        assert(bit_length(1) == 1 + bit_length(0));
        lemma_pow2_unfold(1);
        vstd::arithmetic::power2::lemma2_to64();
    } else {
        lemma_bit_length(n / 2);
        let l = bit_length(n / 2);
        lemma_pow2_unfold(l);
        lemma_pow2_unfold(l + 1);
    }
}

pub fn count_bits(n: u64) -> (r: u64)
    ensures
        r == bit_length(n as nat),
        r <= 64,
{
    proof {
        vstd::arithmetic::power2::lemma2_to64();
    }
    let mut len: u64 = 0;
    let mut k: u64 = n;
    while k > 0
        invariant
            len + bit_length(k as nat) == bit_length(n as nat),
            len <= 64,
            k as nat * pow2(len as nat) <= n,
        decreases k,
    {
        proof {
            lemma_bit_length(k as nat);
            lemma_bit_length(n as nat);
            if bit_length(n as nat) > 64 {
                vstd::arithmetic::power2::lemma2_to64_rest();
                if bit_length(n as nat) - 1 > 64 {
                    lemma_pow2_strictly_increases(64, (bit_length(n as nat) - 1) as nat);
                }
            }
            lemma_pow2_unfold((len + 1) as nat);
            assert((k / 2) as nat * pow2((len + 1) as nat) <= n) by (nonlinear_arith)
                requires
                    pow2((len + 1) as nat) == 2 * pow2(len as nat),
                    k as nat * pow2(len as nat) <= n,
                    2 * (k / 2) <= k,
            ;
        }
        k = k / 2;
        len += 1;
    }
    proof {
        if n > 0 {
            lemma_bit_length(n as nat);
            vstd::arithmetic::power2::lemma2_to64_rest();
            if bit_length(n as nat) - 1 > 64 {
                lemma_pow2_strictly_increases(64, (bit_length(n as nat) - 1) as nat);
            }
        }
    }
    len
}

/// Bits of the double nearest to a natural number.
pub fn nat_to_real(n: u64) -> (r: u64)
    ensures
        r == real_of_nat(n as nat),
        r < INF_BITS,
{
    if n == 0 {
        return 0;
    }
    let len = count_bits(n);
    let unit = power_of_two(52);
    proof {
        lemma_bit_length(n as nat);
        vstd::arithmetic::power2::lemma2_to64();
        vstd::arithmetic::power2::lemma2_to64_rest();
    }
    let sig: u64 = if len <= 53 {
        let t = power_of_two(53 - len);
        proof {
            lemma_pow2_adds(len as nat, (53 - len) as nat);
            assert(n * t < pow2(len as nat) * pow2((53 - len) as nat)) by (nonlinear_arith)
                requires
                    0 <= n < pow2(len as nat),
                    t == pow2((53 - len) as nat),
                    t > 0,
            ;
        }
        n * t
    } else {
        let s: u64 = len - 53;
        let t = power_of_two(s);
        proof {
            lemma_pow2_adds(53, s as nat);
            lemma_pow2_pos(s as nat);
            assert(n as nat / t as nat <= pow2(53)) by (nonlinear_arith)
                requires
                    n as nat <= pow2(53) * t,
                    t > 0,
            ;
            assert(t <= 2048) by {
                if s < 11 {
                    lemma_pow2_strictly_increases(s as nat, 11);
                }
            }
        }
        let q: u64 = n / t;
        let r: u64 = n % t;
        if 2 * r > t || (2 * r == t && q % 2 == 1) {
            q + 1
        } else {
            q
        }
    };
    assert(sig <= pow2(53) + 1);
    assert((1021 + len) * unit <= 1085 * 0x10_0000_0000_0000) by (nonlinear_arith)
        requires
            len <= 64,
            unit == 0x10_0000_0000_0000,
    ;
    (1021 + len) * unit + sig
}

pub fn int_to_real(i: i64) -> (r: u64)
    ensures
        r == real_of_int(i),
{
    let m = nat_to_real(magnitude(i));
    if i < 0 {
        SIGN_BIT + m
    } else {
        m
    }
}

/// A real whose magnitude is the integer `n`, with the given sign.
pub open spec fn whole_real(neg: bool, n: nat) -> u64 {
    if neg {
        (SIGN_BIT + real_of_nat(n)) as u64
    } else {
        real_of_nat(n) as u64
    }
}

/// The three ways of dropping a fraction.
#[derive(Clone, Copy, Debug, PartialEq, Eq, Structural)]
pub enum Rounding {
    Down,
    Up,
    Zero,
}

/// Rounding to an integral real; a number without a fraction stays as it is.
pub open spec fn real_rounded(how: Rounding, b: u64) -> u64 {
    if !real_finite(b) || no_fraction(real_mag(b), 52, 1075) {
        b
    } else {
        let w = whole_part(real_mag(b), 52, 1075);
        let away = match how {
            Rounding::Down => real_neg(b),
            Rounding::Up => !real_neg(b),
            Rounding::Zero => false,
        };
        whole_real(real_neg(b), if away {
            w + 1
        } else {
            w
        })
    }
}

pub fn round_real(how: Rounding, b: u64) -> (r: u64)
    ensures
        r == real_rounded(how, b),
{
    let m = mag_bits(b);
    if m >= INF_BITS || fractionless(m, 52, 1075) {
        return b;
    }
    let neg = b >= SIGN_BIT;
    let away = match how {
        Rounding::Down => neg,
        Rounding::Up => !neg,
        Rounding::Zero => false,
    };
    match whole_of(m, 52, 1075) {
        Some(w) => {
            let n = nat_to_real(if away {
                w + 1
            } else {
                w
            });
            if neg {
                SIGN_BIT + n
            } else {
                n
            }
        },
        None => {
            proof {
                let (e, s) = (exponent(m as nat, 52), significand(m as nat, 52));
                lemma_sizes(m as nat, 52);
                vstd::arithmetic::power2::lemma2_to64();
                vstd::arithmetic::power2::lemma2_to64_rest();
                lemma_pow2_pos((1075 - e) as nat);
                assert(s / pow2((1075 - e) as nat) <= s) by (nonlinear_arith)
                    requires
                        pow2((1075 - e) as nat) > 0,
                        s >= 0,
                ;
                lemma_pow2_unfold(53);
            }
            b
        },
    }
}

/// A magnitude below `1e15` has an integer part below `2^63`.
pub proof fn lemma_small_whole(b: u64)
    requires
        real_mag(b) < BIG_BITS,
    ensures
        whole_part(real_mag(b), 52, 1075) < SIGN_BIT,
{
    let m = real_mag(b);
    lemma_sizes(m, 52);
    vstd::arithmetic::power2::lemma2_to64();
    vstd::arithmetic::power2::lemma2_to64_rest();
    assert(m / pow2(52) <= 1072) by (nonlinear_arith)
        requires
            m < 0x430c_6bf5_2634_0000,
            pow2(52) == 0x10_0000_0000_0000,
    ;
    let e = exponent(m, 52);
    let s = significand(m, 52);
    lemma_pow2_pos((1075 - e) as nat);
    assert(s / pow2((1075 - e) as nat) <= s) by (nonlinear_arith)
        requires
            pow2((1075 - e) as nat) > 0,
            s >= 0,
    ;
}

/// A single-precision magnitude below `1e15` has an integer part below `2^63`.
pub proof fn lemma_small_whole32(m: u32)
    requires
        m < BIG_BITS32,
    ensures
        whole_part(m as nat, 23, 150) < SIGN_BIT,
{
    lemma_sizes(m as nat, 23);
    vstd::arithmetic::power2::lemma2_to64();
    vstd::arithmetic::power2::lemma2_to64_rest();
    assert(m as nat / pow2(23) <= 177) by (nonlinear_arith)
        requires
            m < 0x5863_5fa9,
            pow2(23) == 0x80_0000,
    ;
    let e = exponent(m as nat, 23);
    let s = significand(m as nat, 23);
    if e >= 150 {
        let k = (e - 150) as nat;
        if k < 27 {
            lemma_pow2_strictly_increases(k, 27);
        }
        assert(s * pow2(k) <= 0x100_0000 * 0x800_0000) by (nonlinear_arith)
            requires
                0 <= s <= 0x100_0000,
                0 <= pow2(k) <= 0x800_0000,
        ;
    } else {
        lemma_pow2_pos((150 - e) as nat);
        assert(s / pow2((150 - e) as nat) <= s) by (nonlinear_arith)
            requires
                pow2((150 - e) as nat) > 0,
                s >= 0,
        ;
    }
}

/// The bits of a positive integer's double are those of a number not below one.
pub proof fn lemma_real_of_nat_large(n: nat)
    requires
        n > 0,
    ensures
        real_of_nat(n) >= 1022 * 0x10_0000_0000_0000,
{
    lemma_bit_length(n);
    vstd::arithmetic::power2::lemma2_to64();
    vstd::arithmetic::power2::lemma2_to64_rest();
    let len = bit_length(n);
    assert((1021 + len) * pow2(52) >= 1022 * 0x10_0000_0000_0000) by (nonlinear_arith)
        requires
            len >= 1,
            pow2(52) == 0x10_0000_0000_0000,
    ;
}

/// An integer of at most 53 binary digits is a double, and going there and back
/// gives it again.
pub proof fn law_small_integers_are_exact(i: i64)
    requires
        -0x20_0000_0000_0000 < i < 0x20_0000_0000_0000,
    ensures
        exact_int(real_of_int(i)) == Some(i),
{
    vstd::arithmetic::power2::lemma2_to64();
    vstd::arithmetic::power2::lemma2_to64_rest();
    let n: nat = if i < 0 {
        (-(i as int)) as nat
    } else {
        i as nat
    };
    if n == 0 {
        lemma_zero();
    } else {
        lemma_exact_nat(n);
    }
}

pub proof fn lemma_zero()
    ensures
        whole_part(0, 52, 1075) == 0,
        no_fraction(0, 52, 1075),
        real_of_nat(0) == 0,
{
    lemma_pow2_pos(52);
    lemma_pow2_pos(1074);
    assert(0nat / pow2(52) == 0 && 0nat % pow2(52) == 0) by (nonlinear_arith)
        requires
            pow2(52) > 0,
    ;
    assert(0nat / pow2(1074) == 0 && 0nat % pow2(1074) == 0) by (nonlinear_arith)
        requires
            pow2(1074) > 0,
    ;
}

proof fn lemma_exact_nat(n: nat)
    requires
        0 < n < 0x20_0000_0000_0000,
    ensures
        whole_part(real_of_nat(n), 52, 1075) == n,
        no_fraction(real_of_nat(n), 52, 1075),
        real_of_nat(n) < INF_BITS,
{
    vstd::arithmetic::power2::lemma2_to64();
    vstd::arithmetic::power2::lemma2_to64_rest();
    lemma_bit_length(n);
    let len = bit_length(n);
    lemma_pow2_unfold(53);
    if len > 53 {
        if len > 54 {
            lemma_pow2_strictly_increases(53, (len - 1) as nat);
        }
    }
    let t = pow2((53 - len) as nat);
    lemma_pow2_pos((53 - len) as nat);
    let sig = n * t;
    let unit = pow2(52);
    assert(unit <= sig < 2 * unit) by {
        lemma_pow2_adds((len - 1) as nat, (53 - len) as nat);
        lemma_pow2_adds(len, (53 - len) as nat);
        assert(pow2((len - 1) as nat) * t <= n * t < pow2(len) * t) by (nonlinear_arith)
            requires
                pow2((len - 1) as nat) <= n < pow2(len),
                t > 0,
        ;
    }
    let m = real_of_nat(n);
    assert(m == (1021 + len) * unit + sig);
    assert(m / unit == 1022 + len && m % unit == sig - unit) by {
        assert(m == (1022 + len) * unit + (sig - unit)) by (nonlinear_arith)
            requires
                m == (1021 + len) * unit + sig,
        ;
        vstd::arithmetic::div_mod::lemma_fundamental_div_mod_converse(
            m as int,
            unit as int,
            (1022 + len) as int,
            sig - unit,
        );
    }
    assert(exponent(m, 52) == 1022 + len);
    assert(significand(m, 52) == sig);
    assert(m < INF_BITS) by (nonlinear_arith)
        requires
            m == (1021 + len) * unit + sig,
            len <= 53,
            sig < 2 * unit,
            unit == 0x10_0000_0000_0000,
    ;
    if len == 53 {
        assert(sig * pow2(0) == n) by (nonlinear_arith)
            requires
                sig == n * t,
                t == 1,
                pow2(0) == 1,
        ;
    } else {
        vstd::arithmetic::div_mod::lemma_fundamental_div_mod_converse(
            sig as int,
            t as int,
            n as int,
            0,
        );
    }
}

proof fn lemma_nats_keep_order(a: nat, b: nat)
    requires
        a < b < 0x20_0000_0000_0000,
    ensures
        real_of_nat(a) < real_of_nat(b) < INF_BITS,
{
    vstd::arithmetic::power2::lemma2_to64();
    vstd::arithmetic::power2::lemma2_to64_rest();
    lemma_pow2_unfold(53);
    lemma_exact_nat(b);
    lemma_sized(b);
    let unit = pow2(52);
    let lb = bit_length(b);
    let sb = b * pow2((53 - lb) as nat);
    if a > 0 {
        lemma_sized(a);
        let la = bit_length(a);
        let sa = a * pow2((53 - la) as nat);
        if la > lb {
            if la - 1 > lb {
                lemma_pow2_strictly_increases(lb, (la - 1) as nat);
            }
            assert(false);
        }
        if la == lb {
            lemma_pow2_pos((53 - lb) as nat);
            assert(sa < sb) by (nonlinear_arith)
                requires
                    a < b,
                    sa == a * pow2((53 - lb) as nat),
                    sb == b * pow2((53 - lb) as nat),
                    pow2((53 - lb) as nat) > 0,
            ;
        } else {
            assert((1021 + la) * unit + sa < (1021 + lb) * unit + sb) by (nonlinear_arith)
                requires
                    la + 1 <= lb,
                    unit <= sa < 2 * unit,
                    unit <= sb,
                    unit > 0,
            ;
        }
    } else {
        lemma_real_of_nat_large(b);
    }
}

proof fn lemma_sized(n: nat)
    requires
        0 < n < 0x20_0000_0000_0000,
    ensures
        0 < bit_length(n) <= 53,
        pow2((bit_length(n) - 1) as nat) <= n < pow2(bit_length(n)),
        pow2(52) <= n * pow2((53 - bit_length(n)) as nat) < 2 * pow2(52),
        real_of_nat(n) == (1021 + bit_length(n)) * pow2(52) + n * pow2(
            (53 - bit_length(n)) as nat,
        ),
{
    vstd::arithmetic::power2::lemma2_to64();
    vstd::arithmetic::power2::lemma2_to64_rest();
    lemma_bit_length(n);
    let len = bit_length(n);
    lemma_pow2_unfold(53);
    if len > 53 {
        if len > 54 {
            lemma_pow2_strictly_increases(53, (len - 1) as nat);
        }
    }
    let t = pow2((53 - len) as nat);
    lemma_pow2_pos((53 - len) as nat);
    lemma_pow2_adds((len - 1) as nat, (53 - len) as nat);
    lemma_pow2_adds(len, (53 - len) as nat);
    assert(pow2((len - 1) as nat) * t <= n * t < pow2(len) * t) by (nonlinear_arith)
        requires
            pow2((len - 1) as nat) <= n < pow2(len),
            t > 0,
    ;
}

/// Integers of at most 53 binary digits compare as the integers that they are.
pub proof fn law_integers_keep_their_order(a: i64, b: i64)
    requires
        -0x20_0000_0000_0000 < a < 0x20_0000_0000_0000,
        -0x20_0000_0000_0000 < b < 0x20_0000_0000_0000,
    ensures
        real_order(real_of_int(a), real_of_int(b)) == Some(
            if a < b {
                Order::Less
            } else if a > b {
                Order::Greater
            } else {
                Order::Equal
            },
        ),
{
    let x: nat = if a < 0 {
        (-(a as int)) as nat
    } else {
        a as nat
    };
    let y: nat = if b < 0 {
        (-(b as int)) as nat
    } else {
        b as nat
    };
    if x > 0 {
        lemma_nats_keep_order(0, x);
    }
    if y > 0 {
        lemma_nats_keep_order(0, y);
    }
    if x < y {
        lemma_nats_keep_order(x, y);
    }
    if y < x {
        lemma_nats_keep_order(y, x);
    }
}

} // verus!
