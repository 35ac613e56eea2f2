//! Unsigned decimal numbers as they stand in a snapshot: how a field is
//! written, and which fields are read back as a number.

use vstd::prelude::*;

verus! {

/// The byte `0`.
pub const DIGIT_ZERO: u8 = 48;

/// The byte `9`.
pub const DIGIT_NINE: u8 = 57;

/// The byte `+`.
pub const PLUS_SIGN: u8 = 43;

/// `b` is one of the bytes `0` to `9`.
pub open spec fn is_digit(b: u8) -> bool {
    DIGIT_ZERO <= b <= DIGIT_NINE
}

/// Every byte of `s` is a decimal digit.
pub open spec fn all_digits(s: Seq<u8>) -> bool {
    forall|i: int| 0 <= i < s.len() ==> is_digit(#[trigger] s[i])
}

/// The number that a run of decimal digits denotes, most significant first.
pub open spec fn digits_value(s: Seq<u8>) -> nat
    decreases s.len(),
{
    if s.len() == 0 {
        0
    } else {
        digits_value(s.drop_last()) * 10 + (s.last() - DIGIT_ZERO) as nat
    }
}

/// The shortest decimal writing of `n`.
pub open spec fn decimal(n: nat) -> Seq<u8>
    decreases n,
{
    if n < 10 {
        seq![(DIGIT_ZERO + n) as u8]
    } else {
        decimal(n / 10).push((DIGIT_ZERO + n % 10) as u8)
    }
}

/// The digits of a field once an optional leading plus sign is taken off.
pub open spec fn unsigned_part(s: Seq<u8>) -> Seq<u8> {
    if s.len() > 0 && s[0] == PLUS_SIGN {
        s.drop_first()
    } else {
        s
    }
}

/// The number that a field holds, if it holds one: an optional plus sign,
/// then at least one digit and nothing but digits, with a value that fits
/// in 32 bits.
pub open spec fn parse_number(s: Seq<u8>) -> Option<u32> {
    let digits = unsigned_part(s);
    if digits.len() > 0 && all_digits(digits) && digits_value(digits) <= u32::MAX {
        Some(digits_value(digits) as u32)
    } else {
        None
    }
}

/// A longer run of digits never denotes less than one of its prefixes.
pub proof fn lemma_digits_value_grows(s: Seq<u8>, k: int)
    requires
        all_digits(s),
        0 <= k <= s.len(),
    ensures
        digits_value(s.subrange(0, k)) <= digits_value(s),
    decreases s.len(),
{
    if k == s.len() {
        assert(s.subrange(0, k) =~= s);
    } else {
        assert(s.drop_last().subrange(0, k) =~= s.subrange(0, k));
        lemma_digits_value_grows(s.drop_last(), k);
        assert(is_digit(s[s.len() - 1]));
    }
}

/// What `decimal` writes is a non-empty run of digits that denotes the
/// number written.
pub proof fn lemma_decimal_reads_back(n: nat)
    ensures
        decimal(n).len() > 0,
        all_digits(decimal(n)),
        digits_value(decimal(n)) == n,
    decreases n,
{
    if n < 10 {
        let s = decimal(n);
        assert(s.drop_last() =~= Seq::<u8>::empty());
        assert(digits_value(s.drop_last()) == 0);
    } else {
        lemma_decimal_reads_back(n / 10);
        let s = decimal(n);
        assert(s.drop_last() =~= decimal(n / 10));
    }
}

/// A number written by `decimal` is read back by `parse_number`.
pub proof fn lemma_parse_decimal(n: u32)
    ensures
        parse_number(decimal(n as nat)) == Some(n),
{
    lemma_decimal_reads_back(n as nat);
    let s = decimal(n as nat);
    assert(is_digit(s[0]));
    assert(unsigned_part(s) == s);
}

/// Reads a field as a number.
pub fn parse_u32(field: &[u8]) -> (r: Option<u32>)
    ensures
        r == parse_number(field@),
{
    let n: usize = field.len();
    let start: usize = if n > 0 && field[0] == PLUS_SIGN { 1 } else { 0 };
    let ghost digits = unsigned_part(field@);
    assert(digits =~= field@.subrange(start as int, n as int));
    if start == n {
        return None;
    }
    let mut value: u64 = 0;
    let mut i: usize = start;
    while i < n
        invariant
            start <= i <= n,
            n == field@.len(),
            digits == unsigned_part(field@),
            digits == field@.subrange(start as int, n as int),
            all_digits(digits.subrange(0, i - start)),
            value == digits_value(digits.subrange(0, i - start)),
            value <= u32::MAX,
        decreases n - i,
    {
        let b: u8 = field[i];
        let ghost before = digits.subrange(0, i - start);
        let ghost after = digits.subrange(0, i - start + 1);
        assert(after.drop_last() =~= before);
        assert(after.last() == b);
        if b < DIGIT_ZERO || b > DIGIT_NINE {
            assert(!is_digit(digits[i - start]));
            return None;
        }
        assert(all_digits(after)) by {
            assert forall|k: int| 0 <= k < after.len() implies is_digit(#[trigger] after[k]) by {
                if k < before.len() {
                    assert(before[k] == after[k]);
                }
            }
        }
        let next: u64 = value * 10 + (b - DIGIT_ZERO) as u64;
        assert(next == digits_value(after));
        if next > 0xffff_ffff {
            proof {
                if all_digits(digits) {
                    lemma_digits_value_grows(digits, i - start + 1);
                }
            }
            return None;
        }
        value = next;
        i = i + 1;
    }
    assert(digits.subrange(0, n - start) =~= digits);
    Some(value as u32)
}

/// Appends the decimal writing of `n` to `out`.
pub fn push_decimal(out: &mut Vec<u8>, n: u32)
    ensures
        final(out)@ == old(out)@ + decimal(n as nat),
{
    let mut digits: Vec<u8> = Vec::new();
    let mut rest: u32 = n;
    // Least significant digit first.
    while rest >= 10
        invariant
            decimal(n as nat) == decimal(rest as nat) + digits@.reverse(),
        decreases rest,
    {
        let d: u8 = (rest % 10) as u8 + DIGIT_ZERO;
        let ghost shorter = digits@;
        digits.push(d);
        assert(decimal(rest as nat) == decimal((rest / 10) as nat).push(d));
        assert(digits@.reverse() =~= seq![d] + shorter.reverse());
        assert(decimal((rest / 10) as nat).push(d) + shorter.reverse() =~= decimal(
            (rest / 10) as nat,
        ) + (seq![d] + shorter.reverse()));
        rest = rest / 10;
    }
    let lead: u8 = rest as u8 + DIGIT_ZERO;
    out.push(lead);
    assert(decimal(rest as nat) =~= seq![lead]);
    let ghost base = old(out)@;
    let mut k: usize = digits.len();
    while k > 0
        invariant
            k <= digits@.len(),
            out@ == base + seq![lead] + digits@.reverse().subrange(0, digits@.len() - k),
        decreases k,
    {
        k = k - 1;
        let d: u8 = digits[k];
        let ghost written = digits@.reverse().subrange(0, digits@.len() - k - 1);
        out.push(d);
        assert(digits@.reverse()[digits@.len() - k - 1] == d);
        assert(written.push(d) =~= digits@.reverse().subrange(0, digits@.len() - k));
        assert((base + seq![lead] + written).push(d) =~= base + seq![lead] + written.push(d));
    }
    assert(digits@.reverse().subrange(0, digits@.len() as int) =~= digits@.reverse());
    assert(base + seq![lead] + digits@.reverse() =~= base + (seq![lead] + digits@.reverse()));
}

} // verus!
