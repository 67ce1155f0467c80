//! The mathematical model of decimal text: what the formatter is obliged to
//! produce, and the laws that hold of it.

use vstd::arithmetic::div_mod::{
    lemma_div_by_multiple, lemma_div_denominator, lemma_div_is_ordered, lemma_fundamental_div_mod,
    lemma_multiply_divide_lt, lemma_small_mod,
};
use vstd::prelude::*;

verus! {

/// The ASCII digit zero.
pub open spec fn zero_char() -> u8 {
    48
}

/// The ASCII minus sign.
pub open spec fn minus_char() -> u8 {
    45
}

/// Ten to the power `k`.
pub open spec fn pow10(k: nat) -> nat
    decreases k,
{
    if k == 0 {
        1
    } else {
        10 * pow10((k - 1) as nat)
    }
}

/// The decimal digits of `n` as ASCII bytes, most significant first.
/// Empty exactly when `n` is zero, and never starting with a zero digit.
pub open spec fn digits(n: nat) -> Seq<u8>
    decreases n,
{
    if n == 0 {
        Seq::empty()
    } else {
        digits(n / 10).push((n % 10 + zero_char()) as u8)
    }
}

/// The last `k` decimal digits of `n` as ASCII bytes, zero-padded to exactly
/// `k` bytes: the form a non-leading remainder chunk is written in.
pub open spec fn padded_digits(n: nat, k: nat) -> Seq<u8>
    decreases k,
{
    if k == 0 {
        Seq::empty()
    } else {
        padded_digits(n / 10, (k - 1) as nat).push((n % 10 + zero_char()) as u8)
    }
}

/// The minimal decimal text of an unsigned value: "0" for zero, otherwise its
/// digits with no leading zero.
pub open spec fn unsigned_repr(n: nat) -> Seq<u8> {
    if n == 0 {
        seq![zero_char()]
    } else {
        digits(n)
    }
}

/// The minimal decimal text of a signed value: a leading '-' for negative
/// values, no sign otherwise.
pub open spec fn signed_repr(v: int) -> Seq<u8> {
    if v < 0 {
        seq![minus_char()] + digits((-v) as nat)
    } else {
        unsigned_repr(v as nat)
    }
}

/// The text of a magnitude together with its sign; negative zero does not
/// arise, so `negative` implies `m > 0` wherever this is used.
pub open spec fn mag_repr(negative: bool, m: nat) -> Seq<u8> {
    if negative {
        seq![minus_char()] + digits(m)
    } else {
        unsigned_repr(m)
    }
}

/// The number a sequence of ASCII digits denotes.
pub open spec fn dec_value(s: Seq<u8>) -> int
    decreases s.len(),
{
    if s.len() == 0 {
        0
    } else {
        dec_value(s.drop_last()) * 10 + (s.last() - zero_char())
    }
}

/// The value decimal text denotes: a leading '-' negates the digits after it.
pub open spec fn text_value(s: Seq<u8>) -> int {
    if s.len() > 0 && s[0] == minus_char() {
        -dec_value(s.skip(1))
    } else {
        dec_value(s)
    }
}

/// The values of the powers of ten this crate works with.
pub proof fn lemma_pow10_values()
    ensures
        pow10(0) == 1,
        pow10(1) == 10,
        pow10(2) == 100,
        pow10(4) == 10000,
        pow10(10) == 10_000_000_000,
        pow10(18) == 1_000_000_000_000_000_000,
        pow10(19) == 10_000_000_000_000_000_000,
        pow10(20) == 100_000_000_000_000_000_000,
        pow10(38) == 100_000_000_000_000_000_000_000_000_000_000_000_000,
        pow10(39) == 1_000_000_000_000_000_000_000_000_000_000_000_000_000,
        pow10(38) == pow10(19) * pow10(19),
{
    reveal_with_fuel(pow10, 40);
    assert(pow10(19) * pow10(19) == pow10(38)) by (nonlinear_arith)
        requires
            pow10(19) == 10_000_000_000_000_000_000,
            pow10(38) == 100_000_000_000_000_000_000_000_000_000_000_000_000,
    ;
}

/// A value below ten to the `k` has at most `k` digits.
pub proof fn lemma_digits_len_below(n: nat, k: nat)
    requires
        n < pow10(k),
    ensures
        digits(n).len() <= k,
    decreases k,
{
    if k == 0 {
    } else if n == 0 {
    } else {
        lemma_multiply_divide_lt(n as int, pow10((k - 1) as nat) as int, 10);
        lemma_digits_len_below(n / 10, (k - 1) as nat);
    }
}

/// A value at least ten to the `k` has more than `k` digits.
pub proof fn lemma_digits_len_above(n: nat, k: nat)
    requires
        n >= pow10(k),
    ensures
        digits(n).len() > k,
    decreases k,
{
    lemma_pow10_pos(k);
    if k == 0 {
    } else {
        lemma_div_by_multiple(pow10((k - 1) as nat) as int, 10);
        lemma_div_is_ordered(10 * pow10((k - 1) as nat) as int, n as int, 10);
        lemma_digits_len_above(n / 10, (k - 1) as nat);
    }
}

/// Powers of ten are positive.
pub proof fn lemma_pow10_pos(k: nat)
    ensures
        pow10(k) >= 1,
    decreases k,
{
    if k > 0 {
        lemma_pow10_pos((k - 1) as nat);
    }
}

/// Zero-padded text is always exactly `k` bytes long.
pub proof fn lemma_padded_len(n: nat, k: nat)
    ensures
        padded_digits(n, k).len() == k,
    decreases k,
{
    if k > 0 {
        lemma_padded_len(n / 10, (k - 1) as nat);
    }
}

/// Powers of ten multiply by adding exponents.
pub proof fn lemma_pow10_adds(a: nat, b: nat)
    ensures
        pow10(a + b) == pow10(a) * pow10(b),
    decreases a,
{
    if a == 0 {
        assert(pow10(a + b) == pow10(b));
        assert(pow10(a) * pow10(b) == 1 * pow10(b));
    } else {
        lemma_pow10_adds((a - 1) as nat, b);
        assert(pow10(((a - 1) + b) as nat) == pow10((a - 1) as nat) * pow10(b));
        assert(pow10(a + b) == 10 * pow10(((a - 1) + b) as nat));
        assert(10 * (pow10((a - 1) as nat) * pow10(b)) == (10 * pow10((a - 1) as nat)) * pow10(b))
            by (nonlinear_arith);
        assert(pow10(a) == 10 * pow10((a - 1) as nat));
        assert(pow10(a + b) == pow10(a) * pow10(b));
    }
}

/// Splitting off the last `k` digits: the digits of `n` are the digits of
/// `n / 10^k` followed by the last `k` digits of `n`, zero-padded — the fact
/// behind formatting a remainder chunk and then the rest.
pub proof fn lemma_digits_chunk(n: nat, k: nat)
    requires
        n >= pow10(k),
    ensures
        digits(n) == digits(n / pow10(k)) + padded_digits(n % pow10(k), k),
    decreases k,
{
    lemma_pow10_pos(k);
    if k == 0 {
        lemma_small_mod(0, 1);
        assert(digits(n / pow10(0)) == digits(n));
        assert(digits(n) =~= digits(n) + padded_digits(n % pow10(0), 0));
    } else {
        let km1 = (k - 1) as nat;
        let p = pow10(km1);
        lemma_pow10_pos(km1);
        // n / 10 is still at least 10^(k-1)
        lemma_div_by_multiple(p as int, 10);
        lemma_div_is_ordered(10 * p as int, n as int, 10);
        lemma_digits_chunk(n / 10, km1);
        // (n / 10) / 10^(k-1) == n / 10^k
        lemma_div_denominator(n as int, 10, p as int);
        // n % 10^k == 10 * ((n / 10) % 10^(k-1)) + n % 10
        vstd::arithmetic::div_mod::lemma_breakdown(n as int, 10, p as int);
        let r = n % pow10(k);
        assert(r == 10 * ((n / 10) % p) + n % 10);
        vstd::arithmetic::div_mod::lemma_fundamental_div_mod_converse(
            r as int,
            10,
            ((n / 10) % p) as int,
            (n % 10) as int,
        );
        assert(r / 10 == (n / 10) % p);
        assert(r % 10 == n % 10);
        assert(digits(n) =~= digits(n / pow10(k)) + padded_digits(n % pow10(k), k));
    }
}

/// The same split for zero-padded text: the first `k - j` bytes come from
/// `n / 10^j`, the last `j` bytes from `n mod 10^j`.
pub proof fn lemma_padded_split(n: nat, k: nat, j: nat)
    requires
        j <= k,
    ensures
        padded_digits(n, k) == padded_digits(n / pow10(j), (k - j) as nat) + padded_digits(
            n % pow10(j),
            j,
        ),
    decreases j,
{
    lemma_pow10_pos(j);
    if j == 0 {
        lemma_small_mod(0, 1);
        assert(padded_digits(n / pow10(0), k) == padded_digits(n, k));
        assert(padded_digits(n, k) =~= padded_digits(n, k) + padded_digits(n % pow10(0), 0));
    } else {
        let jm1 = (j - 1) as nat;
        let p = pow10(jm1);
        lemma_pow10_pos(jm1);
        lemma_padded_split(n / 10, (k - 1) as nat, jm1);
        lemma_div_denominator(n as int, 10, p as int);
        vstd::arithmetic::div_mod::lemma_breakdown(n as int, 10, p as int);
        let r = n % pow10(j);
        vstd::arithmetic::div_mod::lemma_fundamental_div_mod_converse(
            r as int,
            10,
            ((n / 10) % p) as int,
            (n % 10) as int,
        );
        assert(padded_digits(n, k) =~= padded_digits(n / pow10(j), (k - j) as nat) + padded_digits(
            n % pow10(j),
            j,
        ));
    }
}

/// Unpadded and padded text agree on the digit count: `k` digits of a value
/// below ten to the `k` that still needs all of them.
pub proof fn lemma_digits_padded(n: nat, k: nat)
    requires
        pow10((k - 1) as nat) <= n < pow10(k),
        k >= 1,
    ensures
        digits(n) == padded_digits(n, k),
    decreases k,
{
    if k == 1 {
        reveal_with_fuel(digits, 2);
        reveal_with_fuel(padded_digits, 2);
        assert(digits(n) =~= padded_digits(n, 1));
    } else {
        let km1 = (k - 1) as nat;
        let p = pow10((km1 - 1) as nat);
        lemma_pow10_pos((km1 - 1) as nat);
        lemma_div_by_multiple(p as int, 10);
        lemma_div_is_ordered(10 * p as int, n as int, 10);
        lemma_multiply_divide_lt(n as int, pow10(km1) as int, 10);
        lemma_digits_padded(n / 10, km1);
        assert(digits(n) =~= padded_digits(n, k));
    }
}

/// The two bytes of a two-digit group: tens digit, then units digit.
pub proof fn lemma_padded_two(d: nat)
    requires
        d < 100,
    ensures
        padded_digits(d, 2) == seq![(zero_char() + d / 10) as u8, (zero_char() + d % 10) as u8],
{
    reveal_with_fuel(padded_digits, 3);
    lemma_small_mod(d / 10, 10);
    assert(padded_digits(d, 2) =~= seq![
        (zero_char() + d / 10) as u8,
        (zero_char() + d % 10) as u8,
    ]);
}

/// The one byte of a one-digit group.
pub proof fn lemma_padded_one(d: nat)
    requires
        d < 10,
    ensures
        padded_digits(d, 1) == seq![(zero_char() + d) as u8],
{
    reveal_with_fuel(padded_digits, 2);
    lemma_small_mod(d, 10);
    assert(padded_digits(d, 1) =~= seq![(zero_char() + d) as u8]);
}

/// Every byte of `digits(n)` is an ASCII digit.
pub proof fn lemma_digits_are_digits(n: nat)
    ensures
        forall|i: int|
            0 <= i < digits(n).len() ==> zero_char() <= #[trigger] digits(n)[i] <= zero_char() + 9,
    decreases n,
{
    if n > 0 {
        lemma_digits_are_digits(n / 10);
        let s = digits(n);
        assert forall|i: int| 0 <= i < s.len() implies zero_char() <= #[trigger] s[i] <= zero_char()
            + 9 by {
            if i < s.len() - 1 {
                assert(s[i] == digits(n / 10)[i]);
            }
        }
    }
}

/// Except for the value zero, the first digit is never '0'.
pub proof fn lemma_digits_no_leading_zero(n: nat)
    requires
        n > 0,
    ensures
        digits(n).len() >= 1,
        digits(n)[0] != zero_char(),
    decreases n,
{
    if n < 10 {
        reveal_with_fuel(digits, 2);
        lemma_small_mod(n, 10);
        assert(digits(n)[0] == zero_char() + n);
    } else {
        lemma_pow10_values();
        lemma_div_is_ordered(10, n as int, 10);
        lemma_digits_no_leading_zero(n / 10);
        assert(digits(n)[0] == digits(n / 10)[0]);
    }
}

/// Reading the digits of `n` back yields `n`: the formatter loses nothing.
pub proof fn lemma_digits_value(n: nat)
    ensures
        dec_value(digits(n)) == n,
    decreases n,
{
    if n > 0 {
        lemma_digits_value(n / 10);
        assert(digits(n).drop_last() =~= digits(n / 10));
        lemma_fundamental_div_mod(n as int, 10);
    }
}

/// Law: formatting loses nothing. Reading the produced text back as a number
/// yields the value that was formatted, for every value of every width.
pub proof fn lemma_round_trip(v: int)
    ensures
        text_value(signed_repr(v)) == v,
{
    let s = signed_repr(v);
    if v < 0 {
        assert(s[0] == minus_char());
        assert(s.skip(1) =~= digits((-v) as nat));
        lemma_digits_value((-v) as nat);
    } else if v == 0 {
        reveal_with_fuel(dec_value, 2);
        assert(s.drop_last() =~= Seq::<u8>::empty());
    } else {
        lemma_digits_are_digits(v as nat);
        lemma_pow10_values();
        lemma_digits_len_above(v as nat, 0);
        assert(s[0] != minus_char());
        lemma_digits_value(v as nat);
    }
}

/// Law: the output never outgrows the fixed maximum for its width. A value
/// strictly between -10^k and 10^k takes at most k digits, plus one byte for
/// the sign of a negative value.
pub proof fn lemma_repr_len_bound(v: int, k: nat)
    requires
        k >= 1,
        -(pow10(k) as int) < v < pow10(k) as int,
    ensures
        signed_repr(v).len() <= k + 1,
        v >= 0 ==> signed_repr(v).len() <= k,
        v < 0 ==> signed_repr(v).len() >= 2,
{
    if v < 0 {
        lemma_digits_len_below((-v) as nat, k);
        lemma_pow10_values();
        lemma_digits_len_above((-v) as nat, 0);
    } else if v > 0 {
        lemma_digits_len_below(v as nat, k);
    }
}

/// Law: negative values and only negative values begin with '-'.
pub proof fn lemma_sign_correct(v: int)
    ensures
        signed_repr(v).len() >= 1,
        (signed_repr(v)[0] == minus_char()) <==> v < 0,
{
    lemma_pow10_values();
    if v < 0 {
        lemma_digits_len_above((-v) as nat, 0);
    } else if v > 0 {
        lemma_digits_len_above(v as nat, 0);
        lemma_digits_are_digits(v as nat);
    }
}

/// Law: except for the value zero, the first digit character is never '0'.
pub proof fn lemma_repr_no_leading_zero(v: int)
    requires
        v != 0,
    ensures
        v > 0 ==> signed_repr(v)[0] != zero_char(),
        v < 0 ==> signed_repr(v).len() >= 2 && signed_repr(v)[1] != zero_char(),
{
    if v < 0 {
        lemma_digits_no_leading_zero((-v) as nat);
        assert(signed_repr(v)[1] == digits((-v) as nat)[0]);
    } else {
        lemma_digits_no_leading_zero(v as nat);
    }
}

/// Law: apart from a leading '-' on a negative value, every output byte is an
/// ASCII decimal digit, so the text never needs further validation.
pub proof fn lemma_repr_ascii(v: int)
    ensures
        forall|i: int|
            (if v < 0 {
                1int
            } else {
                0int
            }) <= i < signed_repr(v).len() ==> zero_char() <= #[trigger] signed_repr(v)[i]
                <= zero_char() + 9,
{
    let s = signed_repr(v);
    if v < 0 {
        lemma_digits_are_digits((-v) as nat);
        assert forall|i: int| 1 <= i < s.len() implies zero_char() <= #[trigger] s[i] <= zero_char()
            + 9 by {
            assert(s[i] == digits((-v) as nat)[i - 1]);
        }
    } else if v > 0 {
        lemma_digits_are_digits(v as nat);
    }
}

} // verus!
