use vstd::prelude::*;

verus! {

/// ASCII code of the digit `d` (0..=9).
pub open spec fn digit_byte(d: int) -> u8 {
    (d + 48) as u8
}

pub open spec fn is_digit(b: u8) -> bool {
    48 <= b <= 57
}

pub open spec fn all_digits(s: Seq<u8>) -> bool {
    forall|i: int| 0 <= i < s.len() ==> is_digit(#[trigger] s[i])
}

/// Value of a run of ASCII digits, most significant first.
pub open spec fn digits_value(s: Seq<u8>) -> nat
    decreases s.len(),
{
    if s.len() == 0 {
        0
    } else {
        digits_value(s.drop_last()) * 10 + (s.last() - 48) as nat
    }
}

/// Decimal text of a natural number, most significant digit first, without
/// leading zeros ("0" for zero).
pub open spec fn nat_text(n: nat) -> Seq<u8>
    decreases n,
{
    if n < 10 {
        seq![digit_byte(n as int)]
    } else {
        nat_text(n / 10) + seq![digit_byte((n % 10) as int)]
    }
}

/// Decimal text of a signed integer: a minus sign before the magnitude of a
/// negative number.
pub open spec fn int_text(i: int) -> Seq<u8> {
    if i < 0 {
        seq![45u8] + nat_text((-i) as nat)
    } else {
        nat_text(i as nat)
    }
}

pub open spec fn fits_i64(v: int) -> bool {
    i64::MIN <= v <= i64::MAX
}

/// The signed integer that `s` spells: an optional `-` or `+` sign and at
/// least one ASCII digit, nothing else, with a value that fits in 64 bits.
pub open spec fn int_of_text(s: Seq<u8>) -> Option<int> {
    let neg = s.len() > 0 && s[0] == 45u8;
    let signed = s.len() > 0 && (s[0] == 45u8 || s[0] == 43u8);
    let digits = if signed { s.drop_first() } else { s };
    let v: int = if neg { -(digits_value(digits) as int) } else { digits_value(digits) as int };
    if digits.len() > 0 && all_digits(digits) && fits_i64(v) {
        Some(v)
    } else {
        None
    }
}

pub proof fn lemma_nat_text(n: nat)
    ensures
        nat_text(n).len() > 0,
        all_digits(nat_text(n)),
        digits_value(nat_text(n)) == n,
    decreases n,
{
    if n < 10 {
        let s = nat_text(n);
        assert(s.drop_last() =~= Seq::<u8>::empty());
        assert(digits_value(s.drop_last()) == 0);
        assert(digits_value(s) == digits_value(s.drop_last()) * 10 + (s.last() - 48) as nat);
    } else {
        lemma_nat_text(n / 10);
        let s = nat_text(n);
        assert(s.drop_last() =~= nat_text(n / 10));
        assert(s.last() == digit_byte((n % 10) as int));
        assert((s.last() - 48) as nat == n % 10);
        assert(n == (n / 10) * 10 + n % 10);
        assert(digits_value(s) == digits_value(s.drop_last()) * 10 + (s.last() - 48) as nat);
        assert forall|i: int| 0 <= i < s.len() implies is_digit(#[trigger] s[i]) by {
            if i < s.len() - 1 {
                assert(s[i] == nat_text(n / 10)[i]);
            }
        }
    }
}

/// Reading back the decimal text of a 64-bit integer gives the integer.
pub proof fn lemma_int_text_round_trip(i: int)
    requires
        fits_i64(i),
    ensures
        int_of_text(int_text(i)) == Some(i),
{
    if i < 0 {
        lemma_nat_text((-i) as nat);
        assert(int_text(i).drop_first() =~= nat_text((-i) as nat));
    } else {
        lemma_nat_text(i as nat);
    }
}

/// Writes the decimal text of `n` at the end of `out`.
pub fn push_u64_text(out: &mut Vec<u8>, n: u64)
    ensures
        final(out)@ == old(out)@ + nat_text(n as nat),
    decreases n,
{
    if n < 10 {
        out.push((n as u8) + 48);
    } else {
        push_u64_text(out, n / 10);
        out.push(((n % 10) as u8) + 48);
    }
}

/// Writes the decimal text of `i` at the end of `out`.
pub fn push_i64_text(out: &mut Vec<u8>, i: i64)
    ensures
        final(out)@ == old(out)@ + int_text(i as int),
{
    if i < 0 {
        out.push(45u8);
        let m: u64 = (-(i as i128)) as u64;
        push_u64_text(out, m);
        assert(final(out)@ =~= old(out)@ + int_text(i as int));
    } else {
        push_u64_text(out, i as u64);
    }
}

/// Reads `b[start..end]` as a signed 64-bit decimal integer.
pub fn parse_i64(b: &[u8], start: usize, end: usize) -> (r: Option<i64>)
    requires
        start <= end <= b@.len(),
    ensures
        r matches Some(v) <==> int_of_text(b@.subrange(start as int, end as int)) is Some,
        r matches Some(v) ==> int_of_text(b@.subrange(start as int, end as int)) == Some(v as int),
{
    let ghost s = b@.subrange(start as int, end as int);
    let mut i: usize = start;
    let mut neg = false;
    if start < end && (b[start] == 45u8 || b[start] == 43u8) {
        neg = b[start] == 45u8;
        i = start + 1;
    }
    let ghost first = i;
    let ghost digits = b@.subrange(first as int, end as int);
    assert(digits =~= if s.len() > 0 && (s[0] == 45u8 || s[0] == 43u8) { s.drop_first() } else { s });
    if i == end {
        return None;
    }
    let mut acc: u64 = 0;
    while i < end
        invariant
            first <= i <= end <= b@.len(),
            s == b@.subrange(start as int, end as int),
            digits == b@.subrange(first as int, end as int),
            digits =~= if s.len() > 0 && (s[0] == 45u8 || s[0] == 43u8) { s.drop_first() } else { s },
            neg == (s.len() > 0 && s[0] == 45u8),
            all_digits(b@.subrange(first as int, i as int)),
            acc as nat == digits_value(b@.subrange(first as int, i as int)),
            acc <= 0x8000_0000_0000_0000u64,
        decreases end - i,
    {
        let c = b[i];
        if c < 48u8 || c > 57u8 {
            assert(digits[i - first] == c);
            assert(!all_digits(digits));
            return None;
        }
        let next: u128 = (acc as u128) * 10 + ((c - 48u8) as u128);
        assert(b@.subrange(first as int, i + 1).drop_last() =~= b@.subrange(first as int, i as int));
        if next > 0x8000_0000_0000_0000u128 {
            proof {
                if all_digits(digits) {
                    lemma_digits_value_prefix(digits, (i + 1 - first) as int);
                    assert(digits.subrange(0, (i + 1 - first) as int) =~= b@.subrange(first as int, i + 1));
                }
            }
            return None;
        }
        acc = next as u64;
        i = i + 1;
    }
    assert(b@.subrange(first as int, end as int) =~= digits);
    if neg {
        Some((-(acc as i128)) as i64)
    } else if acc > 0x7fff_ffff_ffff_ffffu64 {
        None
    } else {
        Some(acc as i64)
    }
}

/// A run of digits is worth at least any prefix of it.
pub proof fn lemma_digits_value_prefix(s: Seq<u8>, k: int)
    requires
        0 <= k <= s.len(),
        all_digits(s),
    ensures
        digits_value(s.subrange(0, k)) <= digits_value(s),
    decreases s.len(),
{
    if k < s.len() {
        assert(s.drop_last().subrange(0, k) =~= s.subrange(0, k));
        lemma_digits_value_prefix(s.drop_last(), k);
        assert(s.subrange(0, k) =~= s.drop_last().subrange(0, k));
    } else {
        assert(s.subrange(0, k) =~= s);
    }
}

/// The unsigned integer that `s` spells: an optional `+` sign and at least
/// one ASCII digit, nothing else, with a value that fits in 64 bits.
pub open spec fn uint_of_text(s: Seq<u8>) -> Option<nat> {
    let digits = if s.len() > 0 && s[0] == 43u8 { s.drop_first() } else { s };
    if digits.len() > 0 && all_digits(digits) && digits_value(digits) <= u64::MAX {
        Some(digits_value(digits))
    } else {
        None
    }
}

/// Reads `b` as an unsigned 64-bit decimal integer.
pub fn parse_u64(b: &[u8]) -> (r: Option<u64>)
    ensures
        r matches Some(v) <==> uint_of_text(b@) is Some,
        r matches Some(v) ==> uint_of_text(b@) == Some(v as nat),
{
    let end = b.len();
    let mut i: usize = 0;
    if end > 0 && b[0] == 43u8 {
        i = 1;
    }
    let ghost first = i;
    let ghost digits = b@.subrange(first as int, end as int);
    assert(digits =~= if b@.len() > 0 && b@[0] == 43u8 { b@.drop_first() } else { b@ });
    if i == end {
        return None;
    }
    let mut acc: u64 = 0;
    while i < end
        invariant
            first <= i <= end == b@.len(),
            digits == b@.subrange(first as int, end as int),
            digits =~= if b@.len() > 0 && b@[0] == 43u8 { b@.drop_first() } else { b@ },
            all_digits(b@.subrange(first as int, i as int)),
            acc as nat == digits_value(b@.subrange(first as int, i as int)),
        decreases end - i,
    {
        let c = b[i];
        if c < 48u8 || c > 57u8 {
            assert(digits[i - first] == c);
            assert(!all_digits(digits));
            return None;
        }
        let next: u128 = (acc as u128) * 10 + ((c - 48u8) as u128);
        assert(b@.subrange(first as int, i + 1).drop_last() =~= b@.subrange(first as int, i as int));
        if next > 0xffff_ffff_ffff_ffffu128 {
            proof {
                if all_digits(digits) {
                    lemma_digits_value_prefix(digits, (i + 1 - first) as int);
                    assert(digits.subrange(0, (i + 1 - first) as int) =~= b@.subrange(first as int, i + 1));
                }
            }
            return None;
        }
        acc = next as u64;
        i = i + 1;
    }
    assert(b@.subrange(first as int, end as int) =~= digits);
    Some(acc)
}

} // verus!
