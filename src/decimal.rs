//! Decimal integers as they appear on the wire: lengths, counts and
//! integer replies.

use vstd::prelude::*;

verus! {

pub const ZERO: u8 = 0x30;
pub const NINE: u8 = 0x39;
pub const MINUS: u8 = 0x2d;
pub const PLUS: u8 = 0x2b;

pub open spec fn is_digit(c: u8) -> bool {
    0x30 <= c <= 0x39
}

pub open spec fn all_digits(s: Seq<u8>) -> bool {
    forall|i: int| 0 <= i < s.len() ==> is_digit(#[trigger] s[i])
}

/// The number that a run of decimal digits denotes, most significant first.
pub open spec fn digits_value(s: Seq<u8>) -> nat
    decreases s.len(),
{
    if s.len() == 0 {
        0
    } else {
        digits_value(s.drop_last()) * 10 + (s.last() - 0x30) as nat
    }
}

/// The integer that `s` writes: an optional `+` or `-`, then at least one
/// digit, with a value that fits in an `i64`. This is the syntax that Rust
/// accepts when it parses an `i64`.
pub open spec fn decimal_value(s: Seq<u8>) -> Option<int> {
    let signed = s.len() > 0 && (s[0] == 0x2d || s[0] == 0x2b);
    let digits = if signed {
        s.drop_first()
    } else {
        s
    };
    let magnitude = digits_value(digits) as int;
    let v = if signed && s[0] == 0x2d {
        -magnitude
    } else {
        magnitude
    };
    if digits.len() == 0 || !all_digits(digits) || v < i64::MIN || v > i64::MAX {
        None
    } else {
        Some(v)
    }
}

/// The digits of `n` in base ten, without leading zeros.
pub open spec fn digits_text(n: nat) -> Seq<u8>
    decreases n,
{
    if n < 10 {
        seq![(0x30 + n) as u8]
    } else {
        digits_text(n / 10).push((0x30 + n % 10) as u8)
    }
}

/// The canonical decimal text of `i`: a minus sign for negative values,
/// no plus sign and no leading zeros.
pub open spec fn decimal_text(i: int) -> Seq<u8> {
    if i < 0 {
        seq![0x2du8] + digits_text((-i) as nat)
    } else {
        digits_text(i as nat)
    }
}

proof fn lemma_digits_value_prefix(s: Seq<u8>, i: int, j: int)
    requires
        0 <= i <= j <= s.len(),
    ensures
        digits_value(s.subrange(0, i)) <= digits_value(s.subrange(0, j)),
    decreases j - i,
{
    if i < j {
        lemma_digits_value_prefix(s, i, j - 1);
        assert(s.subrange(0, j).drop_last() =~= s.subrange(0, j - 1));
    }
}

/// Parses the decimal integer written by `s` (see `decimal_value`).
pub fn parse_decimal(s: &[u8]) -> (r: Option<i64>)
    ensures
        match r {
            Some(v) => decimal_value(s@) == Some(v as int),
            None => decimal_value(s@) is None,
        },
{
    let len = s.len();
    let signed = len > 0 && (s[0] == MINUS || s[0] == PLUS);
    let negative = signed && s[0] == MINUS;
    let start: usize = if signed { 1 } else { 0 };
    let ghost digits = if signed { s@.drop_first() } else { s@ };
    assert(digits =~= s@.subrange(start as int, len as int));
    if start == len {
        return None;
    }
    let limit: u64 = if negative { 0x8000_0000_0000_0000 } else { 0x7fff_ffff_ffff_ffff };
    let mut acc: u64 = 0;
    let mut i: usize = start;
    while i < len
        invariant
            start <= i <= len,
            len == s@.len(),
            signed == (len > 0 && (s@[0] == MINUS || s@[0] == PLUS)),
            negative == (signed && s@[0] == MINUS),
            start == (if signed { 1usize } else { 0usize }),
            digits == (if signed { s@.drop_first() } else { s@ }),
            limit == (if negative { 0x8000_0000_0000_0000u64 } else { 0x7fff_ffff_ffff_ffffu64 }),
            digits =~= s@.subrange(start as int, len as int),
            all_digits(digits.subrange(0, i - start)),
            acc as nat == digits_value(digits.subrange(0, i - start)),
            acc <= limit,
        decreases len - i,
    {
        let c = s[i];
        if c < ZERO || c > NINE {
            assert(!is_digit(digits[i - start]));
            assert(!all_digits(digits));
            return None;
        }
        let d = (c - ZERO) as u64;
        let ghost prev = digits.subrange(0, i - start);
        let ghost next = digits.subrange(0, i - start + 1);
        assert(next.drop_last() =~= prev);
        assert(next.last() == c);
        assert(digits_value(next) == acc * 10 + d);
        let next_acc = match acc.checked_mul(10) {
            Some(m) => m.checked_add(d),
            None => None,
        };
        match next_acc {
            Some(n) if n <= limit => {
                acc = n;
            },
            _ => {
                assert(digits_value(next) > limit);
                proof {
                    lemma_digits_value_prefix(digits, i - start + 1, digits.len() as int);
                    assert(digits.subrange(0, digits.len() as int) =~= digits);
                }
                return None;
            },
        }
        i = i + 1;
    }
    assert(digits.subrange(0, len - start) =~= digits);
    if negative {
        if acc == 0x8000_0000_0000_0000 {
            Some(i64::MIN)
        } else {
            Some(-(acc as i64))
        }
    } else {
        Some(acc as i64)
    }
}

fn push_digits(out: &mut Vec<u8>, n: u64)
    ensures
        final(out)@ == old(out)@ + digits_text(n as nat),
    decreases n,
{
    if n >= 10 {
        push_digits(out, n / 10);
    }
    out.push(ZERO + (n % 10) as u8);
    assert(out@ =~= old(out)@ + digits_text(n as nat));
}

/// Appends the canonical decimal text of `n` to `out`.
pub fn push_decimal(out: &mut Vec<u8>, n: i64)
    ensures
        final(out)@ == old(out)@ + decimal_text(n as int),
{
    if n < 0 {
        out.push(MINUS);
        let magnitude: u64 = if n == i64::MIN {
            0x8000_0000_0000_0000
        } else {
            (-n) as u64
        };
        push_digits(out, magnitude);
        assert(out@ =~= old(out)@ + decimal_text(n as int));
    } else {
        push_digits(out, n as u64);
    }
}

/// Appends the decimal text of a length or a count to `out`.
pub fn push_length(out: &mut Vec<u8>, n: usize)
    ensures
        final(out)@ == old(out)@ + decimal_text(n as int),
{
    push_digits(out, n as u64);
}

proof fn lemma_digits_text(n: nat)
    ensures
        digits_text(n).len() >= 1,
        all_digits(digits_text(n)),
        digits_value(digits_text(n)) == n,
    decreases n,
{
    if n < 10 {
        let t = digits_text(n);
        assert(t.drop_last() =~= Seq::<u8>::empty());
        assert(digits_value(t.drop_last()) == 0);
    } else {
        lemma_digits_text(n / 10);
        let t = digits_text(n);
        assert(t.drop_last() =~= digits_text(n / 10));
        assert(n == (n / 10) * 10 + n % 10) by (nonlinear_arith);
    }
}

/// The canonical text of every `i64` reads back as the same value.
pub proof fn lemma_decimal_round_trip(i: int)
    requires
        i64::MIN <= i <= i64::MAX,
    ensures
        decimal_value(decimal_text(i)) == Some(i),
        decimal_text(i).len() >= 1,
        forall|j: int|
            0 <= j < decimal_text(i).len() ==> is_digit(#[trigger] decimal_text(i)[j])
                || decimal_text(i)[j] == MINUS,
{
    if i < 0 {
        lemma_digits_text((-i) as nat);
        assert(decimal_text(i).drop_first() =~= digits_text((-i) as nat));
    } else {
        lemma_digits_text(i as nat);
        assert(is_digit(digits_text(i as nat)[0]));
    }
}

} // verus!
