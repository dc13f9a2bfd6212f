//! Decimal text for integers, as the RESP wire format writes and reads it:
//! the digits of `{}` formatting, and the grammar that `str::parse` accepts
//! for `i64` and `u64`.

use vstd::prelude::*;

verus! {

/// Is `b` one of the ASCII digits `0`..=`9`?
pub open spec fn is_digit(b: u8) -> bool {
    48 <= b <= 57
}

/// Every byte of `s` is an ASCII digit.
pub open spec fn all_digits(s: Seq<u8>) -> bool {
    forall|i: int| 0 <= i < s.len() ==> is_digit(#[trigger] s[i])
}

/// The number that a string of ASCII digits denotes (leading zeros allowed).
pub open spec fn digits_value(s: Seq<u8>) -> nat
    decreases s.len(),
{
    if s.len() == 0 {
        0
    } else {
        digits_value(s.drop_last()) * 10 + (s.last() - 48) as nat
    }
}

/// The shortest decimal digits of `n` (no sign, no leading zero except for `0` itself).
pub open spec fn nat_digits(n: nat) -> Seq<u8>
    decreases n,
{
    if n < 10 {
        seq![(48 + n) as u8]
    } else {
        nat_digits(n / 10).push((48 + n % 10) as u8)
    }
}

/// How `{}` writes an integer: a `-` sign for negative values, then the digits.
pub open spec fn int_decimal(i: int) -> Seq<u8> {
    if i < 0 {
        seq![45u8] + nat_digits((-i) as nat)
    } else {
        nat_digits(i as nat)
    }
}

/// The digits that follow an optional leading `+`.
pub open spec fn strip_plus(s: Seq<u8>) -> Seq<u8> {
    if s.len() > 0 && s[0] == 43 {
        s.skip(1)
    } else {
        s
    }
}

/// A non-empty run of digits whose value is at most `max`.
pub open spec fn digits_within(d: Seq<u8>, max: nat) -> bool {
    d.len() > 0 && all_digits(d) && digits_value(d) <= max
}

/// What `str::parse::<u64>` gives for text whose bytes are `s`:
/// an optional `+`, then at least one digit, and a value that fits.
pub open spec fn spec_parse_u64(s: Seq<u8>) -> Option<u64> {
    let d = strip_plus(s);
    if digits_within(d, u64::MAX as nat) {
        Some(digits_value(d) as u64)
    } else {
        None
    }
}

/// What `str::parse::<i64>` gives for text whose bytes are `s`:
/// an optional `+` or `-`, then at least one digit, and a value in range.
pub open spec fn spec_parse_i64(s: Seq<u8>) -> Option<i64> {
    if s.len() > 0 && s[0] == 45 {
        let d = s.skip(1);
        if digits_within(d, 0x8000_0000_0000_0000nat) {
            Some((-digits_value(d)) as i64)
        } else {
            None
        }
    } else {
        let d = strip_plus(s);
        if digits_within(d, i64::MAX as nat) {
            Some(digits_value(d) as i64)
        } else {
            None
        }
    }
}

/// Appending one digit multiplies the value so far by ten and adds the digit.
proof fn lemma_digits_value_take(s: Seq<u8>, k: int)
    requires
        0 <= k < s.len(),
    ensures
        digits_value(s.take(k + 1)) == digits_value(s.take(k)) * 10 + (s[k] - 48) as nat,
{
    assert(s.take(k + 1).drop_last() =~= s.take(k));
}

/// A run of digits is worth at least as much as any of its prefixes.
proof fn lemma_digits_value_prefix(s: Seq<u8>, k: int)
    requires
        0 <= k <= s.len(),
        all_digits(s),
    ensures
        digits_value(s.take(k)) <= digits_value(s),
    decreases s.len() - k,
{
    if k < s.len() {
        lemma_digits_value_take(s, k);
        assert(is_digit(s[k]));
        lemma_digits_value_prefix(s, k + 1);
    } else {
        assert(s.take(k) =~= s);
    }
}

/// The digits of `n` are digits, are never empty, and denote `n`.
pub proof fn lemma_nat_digits(n: nat)
    ensures
        nat_digits(n).len() > 0,
        all_digits(nat_digits(n)),
        digits_value(nat_digits(n)) == n,
    decreases n,
{
    if n < 10 {
        assert(nat_digits(n).drop_last() =~= Seq::<u8>::empty());
        assert(nat_digits(n).last() == (48 + n) as u8);
        assert(digits_value(nat_digits(n)) == digits_value(Seq::<u8>::empty()) * 10 + (nat_digits(n).last() - 48) as nat);
        assert(digits_value(Seq::<u8>::empty()) == 0);
    } else {
        lemma_nat_digits(n / 10);
        let d = nat_digits(n / 10);
        assert(nat_digits(n).drop_last() =~= d);
        assert(nat_digits(n).last() == (48 + n % 10) as u8);
        assert((n / 10) * 10 + n % 10 == n) by (nonlinear_arith);
        assert(digits_value(nat_digits(n)) == digits_value(d) * 10 + (nat_digits(n).last() - 48) as nat);
        assert forall|i: int| 0 <= i < nat_digits(n).len() implies is_digit(#[trigger] nat_digits(n)[i]) by {
            if i < d.len() {
                assert(nat_digits(n)[i] == d[i]);
            }
        }
    }
}

/// The text `-1` parses as minus one.
pub proof fn lemma_digit_one()
    ensures
        spec_parse_i64(seq![45u8, 49u8]) == Some(-1i64),
{
    let d = seq![45u8, 49u8].skip(1);
    assert(d =~= seq![49u8]);
    assert(d.drop_last() =~= Seq::<u8>::empty());
    assert(digits_value(d) == digits_value(Seq::<u8>::empty()) * 10 + (d.last() - 48) as nat);
    assert(digits_value(d) == 1);
}

/// Parsing the decimal text of a 64-bit integer gives the integer back.
pub proof fn lemma_parse_int_decimal(i: i64)
    ensures
        spec_parse_i64(int_decimal(i as int)) == Some(i),
{
    if i < 0 {
        let m = (-i) as nat;
        lemma_nat_digits(m);
        let s = int_decimal(i as int);
        assert(s.skip(1) =~= nat_digits(m));
    } else {
        lemma_nat_digits(i as nat);
        let d = nat_digits(i as nat);
        assert(is_digit(d[0]));
    }
}

/// Parsing the decimal text of a natural number below 2^63 gives it back.
pub proof fn lemma_parse_nat_decimal(n: nat)
    requires
        n <= i64::MAX,
    ensures
        spec_parse_i64(nat_digits(n)) == Some(n as i64),
{
    lemma_parse_int_decimal(n as i64);
}

/// Decimal text holds neither a line feed nor a carriage return.
pub proof fn lemma_int_decimal_no_newline(i: int)
    ensures
        forall|k: int| 0 <= k < int_decimal(i).len() ==> (#[trigger] int_decimal(i)[k]) != 10u8
            && int_decimal(i)[k] != 13u8,
{
    let n = if i < 0 { (-i) as nat } else { i as nat };
    lemma_nat_digits(n);
    let s = int_decimal(i);
    assert forall|k: int| 0 <= k < s.len() implies (#[trigger] s[k]) != 10u8 && s[k] != 13u8 by {
        if i < 0 {
            if k > 0 {
                assert(s[k] == nat_digits(n)[k - 1]);
                assert(is_digit(nat_digits(n)[k - 1]));
            }
        } else {
            assert(is_digit(nat_digits(n)[k]));
        }
    }
}

/// Appends the decimal digits of `n` to `out`.
pub fn push_u64_digits(n: u64, out: &mut Vec<u8>)
    ensures
        final(out)@ == old(out)@ + nat_digits(n as nat),
    decreases n,
{
    if n >= 10 {
        push_u64_digits(n / 10, out);
    }
    out.push((48 + n % 10) as u8);
    proof {
        if n >= 10 {
            assert(nat_digits(n as nat) == nat_digits((n / 10) as nat).push((48 + n % 10) as u8));
        }
    }
    assert(final(out)@ =~= old(out)@ + nat_digits(n as nat)) by {
        if n >= 10 {
            assert(nat_digits(n as nat) == nat_digits((n / 10) as nat).push((48 + n % 10) as u8));
        }
    }
}

/// Appends the decimal text of `i`, as `{}` writes it, to `out`.
pub fn push_i64_decimal(i: i64, out: &mut Vec<u8>)
    ensures
        final(out)@ == old(out)@ + int_decimal(i as int),
{
    if i < 0 {
        out.push(45u8);
        let wide: i128 = i as i128;
        let m: u64 = (0i128 - wide) as u64;
        push_u64_digits(m, out);
        assert(final(out)@ =~= old(out)@ + int_decimal(i as int));
    } else {
        push_u64_digits(i as u64, out);
    }
}

/// The value of the digits `s[start..]`, when they are a non-empty run of
/// digits worth at most `u64::MAX`.
fn digits_u64(s: &[u8], start: usize) -> (r: Option<u64>)
    requires
        start <= s@.len(),
    ensures
        r == (if digits_within(s@.skip(start as int), u64::MAX as nat) {
            Some(digits_value(s@.skip(start as int)) as u64)
        } else {
            None::<u64>
        }),
{
    let ghost d = s@.skip(start as int);
    if start >= s.len() {
        return None;
    }
    let mut acc: u64 = 0;
    let mut i: usize = start;
    while i < s.len()
        invariant
            start <= i <= s@.len(),
            d == s@.skip(start as int),
            all_digits(d.take(i - start)),
            acc as nat == digits_value(d.take(i - start)),
        decreases s@.len() - i,
    {
        let b = s[i];
        if b < 48 || b > 57 {
            assert(!is_digit(d[i - start]));
            return None;
        }
        proof {
            lemma_digits_value_take(d, i - start);
        }
        let next = acc.checked_mul(10);
        match next {
            None => {
                proof {
                    if all_digits(d) {
                        lemma_digits_value_prefix(d, i - start + 1);
                    }
                }
                return None;
            },
            Some(t) => {
                let sum = t.checked_add((b - 48) as u64);
                match sum {
                    None => {
                        proof {
                            if all_digits(d) {
                                lemma_digits_value_prefix(d, i - start + 1);
                            }
                        }
                        return None;
                    },
                    Some(v) => {
                        acc = v;
                    },
                }
            },
        }
        assert forall|k: int| 0 <= k < d.take(i + 1 - start).len() implies is_digit(
            #[trigger] d.take(i + 1 - start)[k],
        ) by {
            if k < i - start {
                assert(d.take(i + 1 - start)[k] == d.take(i - start)[k]);
            }
        }
        i = i + 1;
    }
    assert(d.take(i - start) =~= d);
    Some(acc)
}

/// Parses text as `str::parse::<u64>` does.
pub fn parse_u64(s: &[u8]) -> (r: Option<u64>)
    ensures
        r == spec_parse_u64(s@),
{
    if s.len() > 0 && s[0] == 43u8 {
        digits_u64(s, 1)
    } else {
        assert(s@.skip(0) =~= s@);
        digits_u64(s, 0)
    }
}

/// Parses text as `str::parse::<i64>` does.
pub fn parse_i64(s: &[u8]) -> (r: Option<i64>)
    ensures
        r == spec_parse_i64(s@),
{
    if s.len() > 0 && s[0] == 45u8 {
        match digits_u64(s, 1) {
            Some(m) => {
                if m <= 0x8000_0000_0000_0000u64 {
                    let wide: i128 = 0i128 - (m as i128);
                    Some(wide as i64)
                } else {
                    None
                }
            },
            None => {
                proof {
                    let d = s@.skip(1);
                    if digits_within(d, 0x8000_0000_0000_0000nat) {
                        assert(digits_within(d, u64::MAX as nat));
                    }
                }
                None
            },
        }
    } else {
        let start: usize = if s.len() > 0 && s[0] == 43u8 { 1 } else { 0 };
        assert(s@.skip(0) =~= s@);
        match digits_u64(s, start) {
            Some(m) => {
                if m <= 0x7fff_ffff_ffff_ffffu64 {
                    Some(m as i64)
                } else {
                    None
                }
            },
            None => {
                proof {
                    let d = strip_plus(s@);
                    if digits_within(d, i64::MAX as nat) {
                        assert(digits_within(d, u64::MAX as nat));
                    }
                }
                None
            },
        }
    }
}

} // verus!
