//! The decimal formatter: writes a value's digits most-significant first into
//! the suffix of a fixed-capacity conversion buffer, back to front, taking
//! two ASCII characters at a time from the digit-pair table.

use crate::decimal::{
    digits, lemma_digits_chunk, lemma_digits_len_above, lemma_digits_len_below,
    lemma_digits_padded, lemma_padded_len, lemma_padded_one, lemma_padded_split,
    lemma_padded_two,
    lemma_pow10_adds, lemma_pow10_pos, lemma_pow10_values, mag_repr, padded_digits, pow10,
    unsigned_repr,
    zero_char,
};
use vstd::arithmetic::div_mod::{lemma_div_denominator, lemma_multiply_divide_lt};
use vstd::prelude::*;

verus! {

/// The conversion buffer holds the longest possible decimal text of any
/// supported integer: the sign and the 39 digits of the most negative
/// 128-bit value.
pub const MAX_LEN: usize = 40;

/// What it means for `t` to be the digit-pair table: 100 two-character
/// entries, entry `d` holding the ASCII digits of `d`, zero-padded.
pub open spec fn lut_wf(t: Seq<u8>) -> bool {
    &&& t.len() == 200
    &&& forall|d: int| 0 <= d < 100 ==> #[trigger] t[2 * d] == zero_char() + d / 10
    &&& forall|d: int| 0 <= d < 100 ==> #[trigger] t[2 * d + 1] == zero_char() + d % 10
}

/// Build the digit-pair table: the decimal texts of 00 through 99,
/// concatenated into one flat byte sequence.
fn digit_pair_table() -> (t: Vec<u8>)
    ensures
        lut_wf(t@),
{
    let mut t: Vec<u8> = Vec::new();
    let mut d: u64 = 0;
    while d < 100
        invariant
            t@.len() == 2 * d,
            d <= 100,
            forall|j: int| 0 <= j < d ==> #[trigger] t@[2 * j] == zero_char() + j / 10,
            forall|j: int| 0 <= j < d ==> #[trigger] t@[2 * j + 1] == zero_char() + j % 10,
        decreases 100 - d,
    {
        t.push((d / 10) as u8 + 48);
        t.push((d % 10) as u8 + 48);
        d += 1;
    }
    t
}

/// Copy one digit-pair entry into the buffer: the two ASCII digits of `d`,
/// fetched from the table at index `2 * d`.
fn write_pair(d: u64, buf: &mut Vec<u8>, at: usize, lut: &Vec<u8>)
    requires
        lut_wf(lut@),
        d < 100,
        at + 2 <= old(buf).len(),
    ensures
        final(buf)@.len() == old(buf)@.len(),
        final(buf)@.subrange(at as int, at + 2) == padded_digits(d as nat, 2),
        forall|k: int|
            0 <= k < final(buf)@.len() && !(at <= k < at + 2) ==> final(buf)@[k] == old(buf)@[k],
{
    let i = (d as usize) * 2;
    let c0 = lut[i];
    let c1 = lut[i + 1];
    buf[at] = c0;
    buf[at + 1] = c1;
    proof {
        assert(lut@[2 * (d as int)] == zero_char() + d as int / 10);
        assert(lut@[2 * (d as int) + 1] == zero_char() + d as int % 10);
        lemma_padded_two(d as nat);
        assert(buf@.subrange(at as int, at + 2) =~= padded_digits(d as nat, 2));
    }
}

/// Write the decimal text of a value already below 10,000 — at most one more
/// table pair and then a final pair or single digit — ending at `end`;
/// returns the start of the text.
fn fmt_tail(n: u64, buf: &mut Vec<u8>, end: usize, lut: &Vec<u8>) -> (curr: usize)
    requires
        lut_wf(lut@),
        n < 10000,
        end <= old(buf).len(),
        unsigned_repr(n as nat).len() <= end,
    ensures
        curr <= end,
        final(buf)@.len() == old(buf)@.len(),
        end - curr == unsigned_repr(n as nat).len(),
        final(buf)@.subrange(curr as int, end as int) == unsigned_repr(n as nat),
        forall|k: int|
            0 <= k < final(buf)@.len() && !(curr <= k < end) ==> final(buf)@[k] == old(buf)@[k],
{
    proof {
        lemma_pow10_values();
    }
    let mut curr = end;
    if n >= 100 {
        // the two low digits, then the one or two leading digits
        let rem = n % 100;
        let lead = n / 100;
        proof {
            lemma_digits_chunk(n as nat, 2);
            lemma_digits_len_above(n as nat, 2);
            lemma_digits_len_below(n as nat, 4);
        }
        curr -= 2;
        write_pair(rem, buf, curr, lut);
        if lead >= 10 {
            proof {
                lemma_digits_padded(lead as nat, 2);
                lemma_padded_len(lead as nat, 2);
            }
            curr -= 2;
            write_pair(lead, buf, curr, lut);
            proof {
                assert(buf@.subrange(curr as int, end as int) =~= digits(lead as nat)
                    + padded_digits((n % 100) as nat, 2));
            }
        } else {
            proof {
                lemma_digits_padded(lead as nat, 1);
                lemma_padded_one(lead as nat);
            }
            curr -= 1;
            buf[curr] = (lead as u8) + 48;
            proof {
                assert(buf@.subrange(curr as int, end as int) =~= digits(lead as nat)
                    + padded_digits((n % 100) as nat, 2));
            }
        }
        proof {
            assert(buf@.subrange(curr as int, end as int) == unsigned_repr(n as nat));
        }
    } else if n >= 10 {
        proof {
            lemma_digits_padded(n as nat, 2);
            lemma_padded_len(n as nat, 2);
        }
        curr -= 2;
        write_pair(n, buf, curr, lut);
        proof {
            assert(buf@.subrange(curr as int, end as int) =~= unsigned_repr(n as nat));
        }
    } else {
        proof {
            if n > 0 {
                lemma_digits_padded(n as nat, 1);
                lemma_padded_one(n as nat);
            }
        }
        curr -= 1;
        buf[curr] = (n as u8) + 48;
        proof {
            assert(buf@.subrange(curr as int, end as int) =~= unsigned_repr(n as nat));
        }
    }
    curr
}

/// Write the decimal text of a 64-bit value ending at `end`: four digits at a
/// time — one divide per two table pairs — while the value needs them, then
/// the tail; returns the start of the text.
fn fmt_u64(n: u64, buf: &mut Vec<u8>, end: usize, lut: &Vec<u8>) -> (curr: usize)
    requires
        lut_wf(lut@),
        end <= old(buf).len(),
        unsigned_repr(n as nat).len() <= end,
    ensures
        curr <= end,
        final(buf)@.len() == old(buf)@.len(),
        end - curr == unsigned_repr(n as nat).len(),
        final(buf)@.subrange(curr as int, end as int) == unsigned_repr(n as nat),
        forall|k: int|
            0 <= k < final(buf)@.len() && !(curr <= k < end) ==> final(buf)@[k] == old(buf)@[k],
{
    let ghost n0 = n as nat;
    let mut n = n;
    let mut curr = end;
    proof {
        lemma_pow10_values();
        assert(digits(n0) =~= digits(n as nat) + buf@.subrange(curr as int, end as int));
    }
    while n >= 10000
        invariant
            lut_wf(lut@),
            curr <= end <= buf@.len(),
            buf@.len() == old(buf)@.len(),
            digits(n0) == digits(n as nat) + buf@.subrange(curr as int, end as int),
            digits(n0).len() <= end,
            n == 0 ==> n0 == 0,
            forall|k: int|
                0 <= k < buf@.len() && !(curr <= k < end) ==> buf@[k] == old(buf)@[k],
        decreases n,
    {
        let ghost written = buf@.subrange(curr as int, end as int);
        proof {
            lemma_pow10_values();
            lemma_digits_chunk(n as nat, 4);
            lemma_digits_len_above(n as nat, 4);
        }
        let rem = n % 10000;
        n = n / 10000;
        let d1 = rem / 100;
        let d2 = rem % 100;
        proof {
            lemma_padded_split(rem as nat, 4, 2);
        }
        curr -= 4;
        write_pair(d1, buf, curr, lut);
        write_pair(d2, buf, curr + 2, lut);
        proof {
            assert(buf@.subrange(curr as int, end as int) =~= padded_digits(rem as nat, 4)
                + written);
            assert(digits(n0) =~= digits(n as nat) + buf@.subrange(curr as int, end as int));
        }
    }
    let ghost written = buf@.subrange(curr as int, end as int);
    proof {
        if n0 > 0 {
            assert(unsigned_repr(n as nat).len() <= curr);
        }
    }
    let start = fmt_tail(n, buf, curr, lut);
    proof {
        assert(buf@.subrange(curr as int, end as int) =~= written);
        assert(buf@.subrange(start as int, end as int) =~= unsigned_repr(n as nat) + written);
        if n0 > 0 {
            assert(buf@.subrange(start as int, end as int) == digits(n0));
        } else {
            assert(written =~= Seq::<u8>::empty());
            assert(buf@.subrange(start as int, end as int) =~= unsigned_repr(n0));
        }
    }
    start
}

/// Write the decimal text of a 32-bit value ending at `end`, with the same
/// four-digit rounds as the 64-bit path but in 32-bit native division.
fn fmt_u32(n: u32, buf: &mut Vec<u8>, end: usize, lut: &Vec<u8>) -> (curr: usize)
    requires
        lut_wf(lut@),
        end <= old(buf).len(),
        unsigned_repr(n as nat).len() <= end,
    ensures
        curr <= end,
        final(buf)@.len() == old(buf)@.len(),
        end - curr == unsigned_repr(n as nat).len(),
        final(buf)@.subrange(curr as int, end as int) == unsigned_repr(n as nat),
        forall|k: int|
            0 <= k < final(buf)@.len() && !(curr <= k < end) ==> final(buf)@[k] == old(buf)@[k],
{
    let ghost n0 = n as nat;
    let mut n = n;
    let mut curr = end;
    proof {
        lemma_pow10_values();
        assert(digits(n0) =~= digits(n as nat) + buf@.subrange(curr as int, end as int));
    }
    while n >= 10000
        invariant
            lut_wf(lut@),
            curr <= end <= buf@.len(),
            buf@.len() == old(buf)@.len(),
            digits(n0) == digits(n as nat) + buf@.subrange(curr as int, end as int),
            digits(n0).len() <= end,
            n == 0 ==> n0 == 0,
            forall|k: int|
                0 <= k < buf@.len() && !(curr <= k < end) ==> buf@[k] == old(buf)@[k],
        decreases n,
    {
        let ghost written = buf@.subrange(curr as int, end as int);
        proof {
            lemma_pow10_values();
            lemma_digits_chunk(n as nat, 4);
            lemma_digits_len_above(n as nat, 4);
        }
        let rem = n % 10000;
        n = n / 10000;
        let d1 = rem / 100;
        let d2 = rem % 100;
        proof {
            lemma_padded_split(rem as nat, 4, 2);
        }
        curr -= 4;
        write_pair((d1 as u64), buf, curr, lut);
        write_pair((d2 as u64), buf, curr + 2, lut);
        proof {
            assert(buf@.subrange(curr as int, end as int) =~= padded_digits(rem as nat, 4)
                + written);
            assert(digits(n0) =~= digits(n as nat) + buf@.subrange(curr as int, end as int));
        }
    }
    let ghost written = buf@.subrange(curr as int, end as int);
    proof {
        if n0 > 0 {
            assert(unsigned_repr(n as nat).len() <= curr);
        }
    }
    let start = fmt_tail(n as u64, buf, curr, lut);
    proof {
        assert(buf@.subrange(curr as int, end as int) =~= written);
        assert(buf@.subrange(start as int, end as int) =~= unsigned_repr(n as nat) + written);
        if n0 > 0 {
            assert(buf@.subrange(start as int, end as int) == digits(n0));
        } else {
            assert(written =~= Seq::<u8>::empty());
            assert(buf@.subrange(start as int, end as int) =~= unsigned_repr(n0));
        }
    }
    start
}

/// Write a remainder chunk as exactly 19 zero-padded digits filling
/// `end - 19 .. end`: nine table pairs and one leading digit. Chunks other
/// than the most significant one keep their leading zeros.
fn fmt_pad19(n: u64, buf: &mut Vec<u8>, end: usize, lut: &Vec<u8>)
    requires
        lut_wf(lut@),
        n < 10_000_000_000_000_000_000,
        19 <= end <= old(buf).len(),
    ensures
        final(buf)@.len() == old(buf)@.len(),
        final(buf)@.subrange(end - 19, end as int) == padded_digits(n as nat, 19),
        forall|k: int|
            0 <= k < final(buf)@.len() && !(end - 19 <= k < end) ==> final(buf)@[k] == old(
                buf,
            )@[k],
{
    let mut m = n;
    let mut curr = end;
    let mut j: usize = 0;
    proof {
        lemma_pow10_values();
        vstd::arithmetic::div_mod::lemma_div_basics(n as int);
        assert(padded_digits(n as nat, 19) =~= padded_digits(m as nat, 19) + buf@.subrange(
            curr as int,
            end as int,
        ));
    }
    while j < 9
        invariant
            lut_wf(lut@),
            j <= 9,
            curr == end - 2 * j,
            19 <= end <= buf@.len(),
            buf@.len() == old(buf)@.len(),
            m == n as nat / pow10((2 * j) as nat),
            padded_digits(n as nat, 19) == padded_digits(m as nat, (19 - 2 * j) as nat)
                + buf@.subrange(curr as int, end as int),
            forall|k: int|
                0 <= k < buf@.len() && !(curr <= k < end) ==> buf@[k] == old(buf)@[k],
        decreases 9 - j,
    {
        let ghost written = buf@.subrange(curr as int, end as int);
        let ghost mo = m as nat;
        proof {
            lemma_pow10_values();
            lemma_pow10_pos((2 * j) as nat);
            lemma_padded_split(mo, (19 - 2 * j) as nat, 2);
            lemma_pow10_adds((2 * j) as nat, 2);
            lemma_div_denominator(n as int, pow10((2 * j) as nat) as int, 100);
        }
        let d = m % 100;
        m = m / 100;
        curr -= 2;
        write_pair(d, buf, curr, lut);
        proof {
            assert(buf@.subrange(curr as int, end as int) =~= padded_digits(d as nat, 2)
                + written);
            assert(padded_digits(n as nat, 19) =~= padded_digits(
                m as nat,
                (19 - 2 * (j + 1)) as nat,
            ) + buf@.subrange(curr as int, end as int));
        }
        j += 1;
    }
    let ghost written = buf@.subrange(curr as int, end as int);
    proof {
        lemma_pow10_values();
        lemma_multiply_divide_lt(n as int, pow10(18) as int, 10);
        lemma_padded_one(m as nat);
    }
    curr -= 1;
    buf[curr] = (m as u8) + 48;
    proof {
        assert(buf@.subrange(curr as int, end as int) =~= padded_digits(m as nat, 1) + written);
        assert(buf@.subrange(end - 19, end as int) == padded_digits(n as nat, 19));
    }
}

/// Write the decimal text of a 128-bit value ending at `end`: values that fit
/// 64 bits go straight to native division; wider ones are first cut into
/// 64-bit remainder chunks by the divide-by-10^19 kernel, every chunk but the
/// leading one written zero-padded.
fn fmt_u128(n: u128, buf: &mut Vec<u8>, end: usize, lut: &Vec<u8>) -> (curr: usize)
    requires
        lut_wf(lut@),
        end <= old(buf).len(),
        unsigned_repr(n as nat).len() <= end,
    ensures
        curr <= end,
        final(buf)@.len() == old(buf)@.len(),
        end - curr == unsigned_repr(n as nat).len(),
        final(buf)@.subrange(curr as int, end as int) == unsigned_repr(n as nat),
        forall|k: int|
            0 <= k < final(buf)@.len() && !(curr <= k < end) ==> final(buf)@[k] == old(buf)@[k],
{
    if n <= 0xffffffffffffffff {
        fmt_u64(n as u64, buf, end, lut)
    } else {
        proof {
            lemma_pow10_values();
            lemma_digits_chunk(n as nat, 19);
            lemma_digits_len_above(n as nat, 19);
            lemma_padded_len((n as nat) % pow10(19), 19);
        }
        let (mid, lo) = crate::udiv128::udivmod_1e19(n);
        fmt_pad19(lo, buf, end, lut);
        let ghost after_lo = buf@;
        if mid <= 0xffffffffffffffff {
            let curr = fmt_u64(mid as u64, buf, end - 19, lut);
            proof {
                assert(buf@.subrange(curr as int, end as int) =~= digits(mid as nat)
                    + padded_digits((n as nat) % pow10(19), 19));
                assert(buf@.subrange(curr as int, end as int) == unsigned_repr(n as nat));
            }
            curr
        } else {
            proof {
                lemma_digits_chunk(mid as nat, 19);
                lemma_digits_len_above(mid as nat, 19);
                lemma_padded_len((mid as nat) % pow10(19), 19);
                lemma_pow10_adds(19, 19);
                lemma_div_denominator(n as int, pow10(19) as int, pow10(19) as int);
                lemma_multiply_divide_lt(n as int, pow10(38) as int, 4);
                vstd::arithmetic::div_mod::lemma_div_by_self(pow10(19) as int);
                vstd::arithmetic::div_mod::lemma_div_is_ordered(
                    pow10(19) as int,
                    mid as int,
                    pow10(19) as int,
                );
            }
            let (hi, mid2) = crate::udiv128::udivmod_1e19(mid);
            fmt_pad19(mid2, buf, end - 19, lut);
            let ghost after_mid = buf@;
            proof {
                assert(buf@.subrange(end - 19, end as int) =~= after_lo.subrange(
                    end - 19,
                    end as int,
                ));
            }
            let curr = fmt_u64(hi as u64, buf, end - 38, lut);
            proof {
                assert(buf@.subrange(end - 19, end as int) =~= after_lo.subrange(
                    end - 19,
                    end as int,
                ));
                assert(buf@.subrange(end - 38, end - 19) =~= after_mid.subrange(
                    end - 38,
                    end - 19,
                ));
                assert(buf@.subrange(curr as int, end as int) =~= digits(hi as nat)
                    + padded_digits((mid as nat) % pow10(19), 19) + padded_digits(
                    (n as nat) % pow10(19),
                    19,
                ));
                assert(digits(n as nat) =~= digits(hi as nat) + padded_digits(
                    (mid as nat) % pow10(19),
                    19,
                ) + padded_digits((n as nat) % pow10(19), 19));
                assert(buf@.subrange(curr as int, end as int) == unsigned_repr(n as nat));
            }
            curr
        }
    }
}

/// Render a 128-bit magnitude and its sign into a fresh conversion buffer,
/// back to front, and append the occupied suffix to `out`; returns how many
/// bytes were appended. A negative zero does not arise.
pub(crate) fn write_mag_u128(negative: bool, mag: u128, out: &mut Vec<u8>) -> (count: usize)
    requires
        negative ==> mag >= 1,
    ensures
        final(out)@ == old(out)@ + mag_repr(negative, mag as nat),
        count == mag_repr(negative, mag as nat).len(),
{
    let lut = digit_pair_table();
    let mut buf: Vec<u8> = vec![0u8; MAX_LEN];
    proof {
        lemma_pow10_values();
        lemma_digits_len_below(mag as nat, 39);
    }
    let mut curr = fmt_u128(mag, &mut buf, MAX_LEN, &lut);
    if negative {
        curr -= 1;
        buf[curr] = 45;
    }
    proof {
        assert(buf@.subrange(curr as int, MAX_LEN as int) =~= mag_repr(negative, mag as nat));
    }
    push_suffix(&buf, curr, out)
}

/// The same for a 64-bit magnitude, through 64-bit native division alone.
pub(crate) fn write_mag_u64(negative: bool, mag: u64, out: &mut Vec<u8>) -> (count: usize)
    requires
        negative ==> mag >= 1,
    ensures
        final(out)@ == old(out)@ + mag_repr(negative, mag as nat),
        count == mag_repr(negative, mag as nat).len(),
{
    let lut = digit_pair_table();
    let mut buf: Vec<u8> = vec![0u8; MAX_LEN];
    proof {
        lemma_pow10_values();
        lemma_digits_len_below(mag as nat, 20);
    }
    let mut curr = fmt_u64(mag, &mut buf, MAX_LEN, &lut);
    if negative {
        curr -= 1;
        buf[curr] = 45;
    }
    proof {
        assert(buf@.subrange(curr as int, MAX_LEN as int) =~= mag_repr(negative, mag as nat));
    }
    push_suffix(&buf, curr, out)
}

/// The same for a 32-bit magnitude, through 32-bit native division.
pub(crate) fn write_mag_u32(negative: bool, mag: u32, out: &mut Vec<u8>) -> (count: usize)
    requires
        negative ==> mag >= 1,
    ensures
        final(out)@ == old(out)@ + mag_repr(negative, mag as nat),
        count == mag_repr(negative, mag as nat).len(),
{
    let lut = digit_pair_table();
    let mut buf: Vec<u8> = vec![0u8; MAX_LEN];
    proof {
        lemma_pow10_values();
        lemma_digits_len_below(mag as nat, 10);
    }
    let mut curr = fmt_u32(mag, &mut buf, MAX_LEN, &lut);
    if negative {
        curr -= 1;
        buf[curr] = 45;
    }
    proof {
        assert(buf@.subrange(curr as int, MAX_LEN as int) =~= mag_repr(negative, mag as nat));
    }
    push_suffix(&buf, curr, out)
}

/// Append the occupied suffix of the conversion buffer to the output.
fn push_suffix(buf: &Vec<u8>, curr: usize, out: &mut Vec<u8>) -> (count: usize)
    requires
        curr <= buf@.len(),
    ensures
        final(out)@ == old(out)@ + buf@.subrange(curr as int, buf@.len() as int),
        count == buf@.len() - curr,
{
    let end = buf.len();
    let mut k = curr;
    proof {
        assert(out@ =~= old(out)@ + buf@.subrange(curr as int, curr as int));
    }
    while k < end
        invariant
            curr <= k <= end == buf@.len(),
            out@ == old(out)@ + buf@.subrange(curr as int, k as int),
        decreases end - k,
    {
        let c = buf[k];
        out.push(c);
        proof {
            assert(out@ =~= old(out)@ + buf@.subrange(curr as int, k + 1));
        }
        k += 1;
    }
    proof {
        assert(buf@.subrange(curr as int, end as int) == buf@.subrange(
            curr as int,
            buf@.len() as int,
        ));
    }
    end - curr
}

} // verus!
