//! The wide-division kernel: exact quotient and remainder for 128-bit
//! magnitudes. Fast paths specialized for the two divisors decimal chunking
//! needs (10^4 and 10^19), and a general divide-with-remainder kept as a
//! correctness oracle.

use vstd::arithmetic::div_mod::{
    lemma_basic_div, lemma_div_denominator, lemma_div_is_ordered,
    lemma_div_is_ordered_by_denominator, lemma_fundamental_div_mod,
    lemma_fundamental_div_mod_converse, lemma_multiply_divide_lt, lemma_small_mod,
};
use vstd::arithmetic::mul::{lemma_mul_inequality, lemma_mul_upper_bound};
use vstd::arithmetic::power2::{lemma2_to64, lemma2_to64_rest, lemma_pow2_adds, pow2};
use vstd::bits::lemma_u128_shr_is_div;
use vstd::prelude::*;

verus! {

/// 10^19: the largest power of ten that fits in 64 bits, used to cut a
/// 128-bit magnitude into chunks whose digits native division can extract.
pub const POW10_19: u64 = 10_000_000_000_000_000_000;

/// The values of the wide powers of two these proofs turn on.
proof fn lemma_pow2_wide()
    ensures
        pow2(13) == 8192,
        pow2(19) == 524288,
        pow2(62) == 0x4000000000000000,
        pow2(64) == 0x10000000000000000,
        pow2(83) == 9671406556917033397649408,
        pow2(115) == 41538374868278621028243970633760768,
        pow2(127) == 170141183460469231731687303715884105728,
        pow2(128) == 340282366920938463463374607431768211456,
        pow2(190) == 1569275433846670190958947355801916604025588861116008628224,
{
    lemma2_to64();
    lemma2_to64_rest();
    lemma_pow2_adds(64, 19);
    lemma_pow2_adds(64, 51);
    lemma_pow2_adds(64, 63);
    lemma_pow2_adds(64, 64);
    lemma_pow2_adds(128, 62);
}

/// The low 64 bits of a 128-bit value are its remainder modulo 2^64.
proof fn lemma_u128_low64(x: u128)
    by (bit_vector)
    ensures
        (x as u64) as u128 == x % 0x10000000000000000u128,
{
}

/// Multiply two unsigned 128-bit integers and return the upper 128 bits of
/// the 256-bit product, combining four 64-by-64 partial products with carry
/// propagation; a pure numeric primitive with no side effects.
#[verifier::rlimit(100)]
pub fn u128_mulhi(x: u128, y: u128) -> (r: u128)
    ensures
        r == (x * y) / (pow2(128) as int),
{
    let x_lo = x as u64;
    let x_hi = (x >> 64) as u64;
    let y_lo = y as u64;
    let y_hi = (y >> 64) as u64;

    let ghost b = pow2(64) as int;
    proof {
        lemma_pow2_wide();
        lemma_u128_shr_is_div(x, 64);
        lemma_u128_shr_is_div(y, 64);
        lemma_multiply_divide_lt(x as int, b, b);
        lemma_multiply_divide_lt(y as int, b, b);
        lemma_u128_low64(x);
        lemma_u128_low64(y);
        lemma_fundamental_div_mod(x as int, b);
        lemma_fundamental_div_mod(y as int, b);
        assert(x == x_hi * b + x_lo);
        assert(y == y_hi * b + y_lo);
    }

    // handle possibility of overflow
    proof {
        lemma_mul_upper_bound(
            x_lo as int,
            0xffffffffffffffff,
            y_lo as int,
            0xffffffffffffffff,
        );
    }
    let p = (x_lo as u128) * (y_lo as u128);
    let carry = p >> 64;
    proof {
        lemma_u128_shr_is_div(p, 64);
        lemma_multiply_divide_lt(p as int, b, b);
        lemma_fundamental_div_mod(p as int, b);
        lemma_u128_low64(p);
        lemma_mul_upper_bound(
            x_lo as int,
            0xffffffffffffffff,
            y_hi as int,
            0xffffffffffffffff,
        );
    }
    let m = (x_lo as u128) * (y_hi as u128) + carry;
    let high1 = m >> 64;

    let m_lo = m as u64;
    proof {
        lemma_u128_shr_is_div(m, 64);
        lemma_multiply_divide_lt(m as int, b, b);
        lemma_fundamental_div_mod(m as int, b);
        lemma_u128_low64(m);
        lemma_mul_upper_bound(
            x_hi as int,
            0xffffffffffffffff,
            y_lo as int,
            0xffffffffffffffff,
        );
    }
    let b2 = (x_hi as u128) * (y_lo as u128) + (m_lo as u128);
    let high2 = b2 >> 64;
    proof {
        lemma_u128_shr_is_div(b2, 64);
        lemma_multiply_divide_lt(b2 as int, b, b);
        lemma_fundamental_div_mod(b2 as int, b);
        lemma_mul_upper_bound(
            x_hi as int,
            0xffffffffffffffff,
            y_hi as int,
            0xffffffffffffffff,
        );
    }
    let r = (x_hi as u128) * (y_hi as u128) + high1 + high2;
    proof {
        let ghost pl = p as int % b;
        let ghost ml = m_lo as int;
        let ghost bl = b2 as int % b;
        let ghost xh = x_hi as int;
        let ghost xl = x_lo as int;
        let ghost yh = y_hi as int;
        let ghost yl = y_lo as int;
        assert(x * y == (xh * yh) * (b * b) + (xh * yl + xl * yh) * b + xl * yl)
            by (nonlinear_arith)
            requires
                x == xh * b + xl,
                y == yh * b + yl,
        ;
        assert((xh * yl + xl * yh) * b + xl * yl == (xh * yl + xl * yh + carry) * b + pl)
            by (nonlinear_arith)
            requires
                xl * yl == carry * b + pl,
        ;
        assert((xh * yl + xl * yh + carry) * b == (xh * yl + ml) * b + high1 * (b * b))
            by (nonlinear_arith)
            requires
                m == xl * yh + carry,
                m == high1 * b + ml,
        ;
        assert((xh * yl + ml) * b == high2 * (b * b) + bl * b) by (nonlinear_arith)
            requires
                b2 == xh * yl + ml,
                b2 == high2 * b + bl,
        ;
        assert(x * y == r * (b * b) + (bl * b + pl)) by (nonlinear_arith)
            requires
                x * y == (xh * yh) * (b * b) + (xh * yl + xl * yh) * b + xl * yl,
                (xh * yl + xl * yh) * b + xl * yl == (xh * yl + xl * yh + carry) * b + pl,
                (xh * yl + xl * yh + carry) * b == (xh * yl + ml) * b + high1 * (b * b),
                (xh * yl + ml) * b == high2 * (b * b) + bl * b,
                r == xh * yh + high1 + high2,
        ;
        assert(0 <= bl * b + pl < b * b) by (nonlinear_arith)
            requires
                0 <= bl < b,
                0 <= pl < b,
        ;
        lemma_fundamental_div_mod_converse(x * y, b * b, r as int, bl * b + pl);
        lemma_pow2_adds(64, 64);
    }
    r
}

/// Multiplying by this reciprocal and floor-dividing by 2^190 yields the
/// quotient by 10^19, for every 128-bit value (division by an invariant
/// integer through a precomputed reciprocal).
proof fn lemma_reciprocal_1e19(n: u128)
    ensures
        (n * 156927543384667019095894735580191660403) / (pow2(190) as int) == n as int
            / 10_000_000_000_000_000_000,
{
    let c = 156927543384667019095894735580191660403int;
    let d = 10_000_000_000_000_000_000int;
    lemma_pow2_wide();
    let p190 = pow2(190) as int;
    let e = c * d - p190;
    assert(c * d == 1569275433846670190958947355801916604030000000000000000000int);
    let q = n as int / d;
    let r = n as int % d;
    lemma_fundamental_div_mod(n as int, d);
    assert(n * c == q * p190 + (q * e + r * c)) by (nonlinear_arith)
        requires
            n == q * d + r,
            c * d == p190 + e,
    ;
    // the error term stays below 2^190 even for the largest quotient
    let qmax = 34028236692093846346int;
    assert(qmax * d == 340282366920938463460000000000000000000int);
    lemma_fundamental_div_mod_converse(
        0xffffffffffffffffffffffffffffffffint,
        d,
        qmax,
        3374607431768211455int,
    );
    lemma_div_is_ordered(n as int, 0xffffffffffffffffffffffffffffffffint, d);
    lemma_mul_inequality(q, qmax, e);
    lemma_mul_inequality(r, d - 1, c);
    assert(qmax * e == 150103278026157097745457513128705130496int);
    assert((d - 1) * c == 1569275433846670190802019812417249584934105264419808339597int);
    assert(q * e >= 0) by (nonlinear_arith)
        requires
            q >= 0 && e >= 0,
    ;
    assert(r * c >= 0) by (nonlinear_arith)
        requires
            r >= 0 && c >= 0,
    ;
    lemma_fundamental_div_mod_converse(n * c, p190, q, q * e + r * c);
}

/// Divide `n` by 10^19 and return quotient and remainder. Below 2^83 a shift
/// and one narrow divide suffice (10^19 is 2^19 times 5^19); otherwise keep
/// the high half of the product with a precomputed reciprocal and shift.
pub fn udivmod_1e19(n: u128) -> (qr: (u128, u64))
    ensures
        qr.0 == n as int / (POW10_19 as int),
        qr.1 == n as int % (POW10_19 as int),
        qr.1 < POW10_19,
{
    let d: u64 = POW10_19;
    proof {
        lemma_pow2_wide();
    }
    let quot = if n < 9671406556917033397649408 {
        // n < 2^83
        proof {
            lemma_u128_shr_is_div(n, 19);
            lemma_pow2_adds(64, 19);
            lemma_multiply_divide_lt(n as int, pow2(64) as int, pow2(19) as int);
        }
        let n19 = (n >> 19) as u64;
        let d19 = d >> 19;
        proof {
            vstd::bits::lemma_u64_shr_is_div(d, 19);
            assert(524288int * 19073486328125int == 10_000_000_000_000_000_000int);
            lemma_fundamental_div_mod_converse(d as int, 524288, 19073486328125, 0);
            lemma_div_denominator(n as int, 524288, 19073486328125);
        }
        (n19 / d19) as u128
    } else {
        let h = u128_mulhi(n, 156927543384667019095894735580191660403);
        proof {
            lemma_u128_shr_is_div(h, 62);
            lemma_div_denominator(
                n * 156927543384667019095894735580191660403,
                pow2(128) as int,
                pow2(62) as int,
            );
            lemma_pow2_adds(128, 62);
            lemma_reciprocal_1e19(n);
        }
        h >> 62
    };
    proof {
        lemma_fundamental_div_mod(n as int, d as int);
        assert(quot == n as int / (d as int));
        assert((d as int) * quot <= n);
    }
    let rem = (n - quot * (d as u128)) as u64;
    (quot, rem)
}

/// The lowest bit of a 128-bit value is its remainder modulo two.
proof fn lemma_u128_low_bit(x: u128)
    by (bit_vector)
    ensures
        x & 1 == x % 2,
{
}

/// Shifting left by one and placing a bit doubles and adds, as long as the
/// top bit is clear.
proof fn lemma_u128_shl1_or(x: u128, b: u128)
    by (bit_vector)
    requires
        x < 0x80000000000000000000000000000000u128,
        b <= 1,
    ensures
        (x << 1u128) | b == 2 * x + b,
        x << 1u128 == 2 * x,
{
}

/// The bit-serial restoring-division loop shared by the divide-by-10000 path
/// and the general divide: the bits of `n` above position `i0` have already
/// been reduced to the remainder `r0`, and each round shifts in one more bit
/// and subtracts the divisor if it can.
fn restoring_div(n: u128, d: u128, i0: u32, r0: u128) -> (qr: (u128, u128))
    requires
        0 < d,
        d < pow2(127),
        i0 <= 128,
        r0 == n as nat / pow2(i0 as nat),
        r0 < d,
    ensures
        qr.0 == n as int / (d as int),
        qr.1 == n as int % (d as int),
{
    let mut q: u128 = 0;
    let mut r: u128 = r0;
    let mut i: u32 = i0;
    proof {
        lemma_pow2_wide();
    }
    while i > 0
        invariant
            0 < d < pow2(127),
            i <= 128,
            r < d,
            q * (d as int) + r == n as int / (pow2(i as nat) as int),
        decreases i,
    {
        let ghost qo = q as int;
        let ghost ro = r as int;
        let ghost io = i as nat;
        proof {
            lemma_pow2_wide();
            lemma2_to64();
            // the quotient so far fits below 2^127: it is at most n shifted
            // down by at least one bit
            vstd::arithmetic::power2::lemma_pow2_strictly_increases(0, io);
            assert(qo <= qo * (d as int)) by (nonlinear_arith)
                requires
                    qo >= 0,
                    d >= 1,
            ;
            lemma_div_is_ordered_by_denominator(n as int, 2, pow2(io) as int);
            lemma_multiply_divide_lt(n as int, pow2(127) as int, 2);
            assert(qo < pow2(127));
        }
        i = i - 1;
        let bit = (n >> (i as u128)) & 1;
        proof {
            lemma_u128_shr_is_div(n, i as u128);
            lemma_u128_low_bit(n >> (i as u128));
            // one more bit of n: n / 2^i == 2 * (n / 2^(i+1)) + bit
            lemma_pow2_adds(i as nat, 1);
            lemma2_to64();
            lemma_div_denominator(n as int, pow2(i as nat) as int, 2);
            lemma_fundamental_div_mod(n as int / (pow2(i as nat) as int), 2);
            lemma_u128_shl1_or(r, bit);
        }
        let rr = (r << 1) | bit;
        if rr >= d {
            proof {
                lemma_u128_shl1_or(q, 1);
                assert((2 * qo + 1) * (d as int) == 2 * (qo * (d as int)) + d)
                    by (nonlinear_arith);
            }
            q = (q << 1) | 1;
            r = rr - d;
        } else {
            proof {
                lemma_u128_shl1_or(q, 0);
                assert((2 * qo) * (d as int) == 2 * (qo * (d as int))) by (nonlinear_arith);
            }
            q = q << 1;
            r = rr;
        }
    }
    proof {
        assert(pow2(0) == 1) by {
            lemma2_to64();
        }
        vstd::arithmetic::div_mod::lemma_div_basics(n as int);
        lemma_fundamental_div_mod_converse(n as int, d as int, q as int, r as int);
    }
    (q, r)
}

/// Divide `n` by 10,000 — the four-digit chunking divisor — by normalizing
/// past the divisor's leading zeros and running the restoring loop; exact
/// for every 128-bit input, with the remainder always below 10,000.
pub fn udivmod_1e4(n: u128) -> (qr: (u128, u64))
    ensures
        qr.0 == n as int / 10000,
        qr.1 == n as int % 10000,
        qr.1 < 10000,
{
    proof {
        lemma_pow2_wide();
        lemma_u128_shr_is_div(n, 115);
        lemma_pow2_adds(115, 13);
        lemma_multiply_divide_lt(n as int, pow2(13) as int, pow2(115) as int);
    }
    let r0 = n >> 115;
    let (q, r) = restoring_div(n, 10000, 115, r0);
    (q, r as u64)
}

/// The exponent of a power-of-two divisor, if it has one: `Some(k)` means `d`
/// is exactly 2^k.
fn pow2_log(d: u128) -> (res: Option<u32>)
    ensures
        res matches Some(k) ==> k < 128 && d == pow2(k as nat),
{
    let mut k: u32 = 0;
    let mut t: u128 = 1;
    proof {
        lemma2_to64();
    }
    while k < 127 && t != d
        invariant
            t == pow2(k as nat),
            k <= 127,
        decreases 127 - k,
    {
        proof {
            lemma_pow2_wide();
            vstd::arithmetic::power2::lemma_pow2_strictly_increases(k as nat, 127);
            lemma_u128_shl1_or(t, 0);
            vstd::arithmetic::power2::lemma_pow2_unfold((k + 1) as nat);
        }
        t = t << 1;
        k = k + 1;
    }
    if t == d {
        Some(k)
    } else {
        None
    }
}

/// General 128-by-128-bit unsigned division with remainder, covering every
/// combination of operand magnitudes; the correctness oracle for the
/// specialized fast paths, not the production path. A zero divisor is
/// disallowed rather than reported.
pub fn udivmod(n: u128, d: u128) -> (qr: (u128, u128))
    requires
        d != 0,
    ensures
        qr.0 == n as int / (d as int),
        qr.1 == n as int % (d as int),
{
    if d > n {
        proof {
            lemma_basic_div(n as int, d as int);
            lemma_small_mod(n as nat, d as nat);
        }
        (0, n)
    } else if n <= 0xffffffffffffffff {
        // both operands fit the low 64 bits: one native narrow divide
        let q = (n as u64) / (d as u64);
        let r = (n as u64) % (d as u64);
        (q as u128, r as u128)
    } else if let Some(k) = pow2_log(d) {
        // a power-of-two divisor: the quotient is a shift
        proof {
            lemma_u128_shr_is_div(n, k as u128);
            lemma_fundamental_div_mod(n as int, d as int);
        }
        let q = n >> (k as u128);
        let r = n - q * d;
        (q, r)
    } else if d >= 0x80000000000000000000000000000000 {
        // the divisor claims the full 128 bits: d <= n < 2d, so the quotient
        // is exactly one
        proof {
            lemma_fundamental_div_mod_converse(n as int, d as int, 1, n - d);
        }
        (1, n - d)
    } else {
        proof {
            lemma_pow2_wide();
            lemma_basic_div(n as int, pow2(128) as int);
        }
        restoring_div(n, d, 128, 0)
    }
}

/// Law: on every 128-bit dividend, the two fast paths return exactly what the
/// general divide-with-remainder oracle returns, and each remainder is
/// strictly below its divisor.
pub fn divmod_paths_agree(n: u128) -> (ok: bool)
    ensures
        ok,
{
    let (q19, r19) = udivmod_1e19(n);
    let (oq19, or19) = udivmod(n, 10_000_000_000_000_000_000);
    let (q4, r4) = udivmod_1e4(n);
    let (oq4, or4) = udivmod(n, 10_000);
    q19 == oq19 && r19 as u128 == or19 && r19 < 10_000_000_000_000_000_000 && q4 == oq4 && r4
        as u128 == or4 && r4 < 10_000
}

} // verus!
