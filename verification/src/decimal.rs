//! Decimal integers as they stand on the wire: ASCII digits with an optional
//! sign, read from bytes and written to bytes.
use vstd::prelude::*;

verus! {

/// The byte `+`.
pub const PLUS: u8 = 0x2b;

/// The byte `-`.
pub const MINUS: u8 = 0x2d;

/// The largest magnitude of a negative `i32`.
pub const I32_MIN_MAGNITUDE: u64 = 0x8000_0000;

/// The largest `i32`.
pub const I32_MAX_MAGNITUDE: u64 = 0x7fff_ffff;

/// Whether `b` is one of the ten ASCII digits.
pub open spec fn is_digit(b: u8) -> bool {
    0x30 <= b <= 0x39
}

/// Whether every byte of `s` is an ASCII digit.
pub open spec fn all_digits(s: Seq<u8>) -> bool {
    forall|i: int| 0 <= i < s.len() ==> is_digit(#[trigger] s[i])
}

/// What the digit `b` counts for; a byte that is no digit counts for nothing.
pub open spec fn digit_value(b: u8) -> nat {
    if is_digit(b) {
        (b - 0x30) as nat
    } else {
        0
    }
}

/// The number that the digits of `s` spell, most significant first.
pub open spec fn digits_value(s: Seq<u8>) -> nat
    decreases s.len(),
{
    if s.len() == 0 {
        0
    } else {
        digits_value(s.drop_last()) * 10 + digit_value(s.last())
    }
}

/// The number that `s` spells if it is one or more digits and the number is
/// at most `limit`.
pub open spec fn magnitude(s: Seq<u8>, limit: nat) -> Option<nat> {
    if s.len() > 0 && all_digits(s) && digits_value(s) <= limit {
        Some(digits_value(s))
    } else {
        None
    }
}

/// The reading of `s` as an unsigned 64-bit decimal: an optional `+`, then
/// one or more digits, the whole within `u64`.
pub open spec fn unsigned_value(s: Seq<u8>) -> Option<nat> {
    if s.len() > 0 && s[0] == PLUS {
        magnitude(s.skip(1), u64::MAX as nat)
    } else {
        magnitude(s, u64::MAX as nat)
    }
}

/// The reading of `s` as a signed 32-bit decimal: an optional `+` or `-`,
/// then one or more digits, the whole within `i32`.
pub open spec fn signed_value(s: Seq<u8>) -> Option<int> {
    if s.len() > 0 && s[0] == MINUS {
        match magnitude(s.skip(1), I32_MIN_MAGNITUDE as nat) {
            Some(m) => Some(-(m as int)),
            None => None,
        }
    } else if s.len() > 0 && s[0] == PLUS {
        match magnitude(s.skip(1), I32_MAX_MAGNITUDE as nat) {
            Some(m) => Some(m as int),
            None => None,
        }
    } else {
        match magnitude(s, I32_MAX_MAGNITUDE as nat) {
            Some(m) => Some(m as int),
            None => None,
        }
    }
}

/// The shortest spelling of `n` in decimal digits.
pub open spec fn decimal_digits(n: nat) -> Seq<u8>
    decreases n,
{
    if n < 10 {
        seq![(0x30 + n) as u8]
    } else {
        decimal_digits(n / 10).push((0x30 + n % 10) as u8)
    }
}

/// The shortest spelling of `n` in decimal digits, with `-` in front of a
/// negative number.
pub open spec fn signed_digits(n: int) -> Seq<u8> {
    if n < 0 {
        seq![MINUS] + decimal_digits((-n) as nat)
    } else {
        decimal_digits(n as nat)
    }
}

/// A prefix of a digit string spells a number no larger than the whole.
pub proof fn lemma_prefix_value(s: Seq<u8>, k: int)
    requires
        0 <= k <= s.len(),
    ensures
        digits_value(s.take(k)) <= digits_value(s),
    decreases s.len(),
{
    if k == s.len() {
        assert(s.take(k) =~= s);
    } else {
        assert(s.drop_last().take(k) =~= s.take(k));
        lemma_prefix_value(s.drop_last(), k);
    }
}

/// The spelling of `n` is made of digits, is not empty, and spells `n`.
pub proof fn lemma_decimal_digits(n: nat)
    ensures
        decimal_digits(n).len() > 0,
        all_digits(decimal_digits(n)),
        digits_value(decimal_digits(n)) == n,
    decreases n,
{
    if n < 10 {
        let s = decimal_digits(n);
        assert(s.drop_last() =~= Seq::<u8>::empty());
        assert(digits_value(s.drop_last()) == 0);
    } else {
        lemma_decimal_digits(n / 10);
        let head = decimal_digits(n / 10);
        let s = decimal_digits(n);
        assert(s.drop_last() =~= head);
        assert(s.last() == (0x30 + n % 10) as u8);
    }
}

/// The spelling of a number, signed or not, is made of ASCII bytes.
pub proof fn lemma_signed_digits_ascii(n: int)
    ensures
        forall|i: int| 0 <= i < signed_digits(n).len() ==> signed_digits(n)[i] < 0x80,
{
    let magnitude = if n < 0 { (-n) as nat } else { n as nat };
    lemma_decimal_digits(magnitude);
    assert forall|i: int| 0 <= i < signed_digits(n).len() implies signed_digits(n)[i]
        < 0x80 by {
        if n < 0 {
            if i > 0 {
                assert(is_digit(decimal_digits(magnitude)[i - 1]));
            }
        } else {
            assert(is_digit(decimal_digits(magnitude)[i]));
        }
    }
}

/// Reads the digits of `bytes` from `start` to its end as a number of at
/// most `limit`.
pub fn read_magnitude(bytes: &[u8], start: usize, limit: u64) -> (r: Option<u64>)
    requires
        start <= bytes@.len(),
    ensures
        match r {
            Some(v) => magnitude(bytes@.skip(start as int), limit as nat) == Some(v as nat),
            None => magnitude(bytes@.skip(start as int), limit as nat) is None,
        },
{
    let ghost digits = bytes@.skip(start as int);
    if start == bytes.len() {
        return None;
    }
    let mut acc: u128 = 0;
    let mut i: usize = start;
    while i < bytes.len()
        invariant
            start <= i <= bytes@.len(),
            digits == bytes@.skip(start as int),
            all_digits(digits.take(i - start)),
            acc == digits_value(digits.take(i - start)),
            acc <= limit,
        decreases bytes@.len() - i,
    {
        let b = bytes[i];
        let ghost k = i - start;
        assert(digits[k] == b);
        if b < 0x30 || b > 0x39 {
            return None;
        }
        let next: u128 = acc * 10 + (b - 0x30) as u128;
        proof {
            let longer = digits.take(k + 1);
            assert(longer.drop_last() =~= digits.take(k));
            assert(longer.last() == b);
            assert(digits_value(longer) == next);
            assert(all_digits(longer)) by {
                assert forall|j: int| 0 <= j < longer.len() implies is_digit(
                    #[trigger] longer[j],
                ) by {
                    if j < k {
                        assert(longer[j] == digits.take(k)[j]);
                    }
                }
            }
            lemma_prefix_value(digits, k + 1);
        }
        if next > limit as u128 {
            return None;
        }
        acc = next;
        i = i + 1;
    }
    proof {
        assert(digits.take(i - start) =~= digits);
    }
    Some(acc as u64)
}

/// Reads `bytes` as an unsigned 64-bit decimal.
pub fn read_unsigned(bytes: &[u8]) -> (r: Option<u64>)
    ensures
        match r {
            Some(v) => unsigned_value(bytes@) == Some(v as nat),
            None => unsigned_value(bytes@) is None,
        },
{
    if bytes.len() > 0 && bytes[0] == PLUS {
        read_magnitude(bytes, 1, u64::MAX)
    } else {
        assert(bytes@.skip(0) =~= bytes@);
        read_magnitude(bytes, 0, u64::MAX)
    }
}

/// Reads `bytes` as a signed 32-bit decimal.
pub fn read_signed(bytes: &[u8]) -> (r: Option<i32>)
    ensures
        match r {
            Some(v) => signed_value(bytes@) == Some(v as int),
            None => signed_value(bytes@) is None,
        },
{
    if bytes.len() > 0 && bytes[0] == MINUS {
        match read_magnitude(bytes, 1, I32_MIN_MAGNITUDE) {
            Some(m) => {
                let wide: i64 = -(m as i64);
                Some(wide as i32)
            },
            None => None,
        }
    } else if bytes.len() > 0 && bytes[0] == PLUS {
        match read_magnitude(bytes, 1, I32_MAX_MAGNITUDE) {
            Some(m) => Some(m as i32),
            None => None,
        }
    } else {
        assert(bytes@.skip(0) =~= bytes@);
        match read_magnitude(bytes, 0, I32_MAX_MAGNITUDE) {
            Some(m) => Some(m as i32),
            None => None,
        }
    }
}

/// Appends the decimal spelling of `n` to `out`.
pub fn write_decimal(out: &mut Vec<u8>, n: usize)
    ensures
        final(out)@ == old(out)@ + decimal_digits(n as nat),
    decreases n,
{
    if n >= 10 {
        write_decimal(out, n / 10);
    }
    let digit: u8 = (n % 10) as u8;
    out.push(0x30 + digit);
    assert(out@ =~= old(out)@ + decimal_digits(n as nat));
}

/// Appends the decimal spelling of `n` to `out`, with `-` in front of a
/// negative number.
pub fn write_signed(out: &mut Vec<u8>, n: i32)
    ensures
        final(out)@ == old(out)@ + signed_digits(n as int),
{
    if n < 0 {
        out.push(MINUS);
        let magnitude: i64 = -(n as i64);
        write_decimal(out, magnitude as usize);
        assert(out@ =~= old(out)@ + signed_digits(n as int));
    } else {
        write_decimal(out, n as usize);
    }
}

} // verus!
