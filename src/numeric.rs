//! Decimal text: reading signed and unsigned 64-bit integers, and writing them.
use vstd::prelude::*;

verus! {

pub open spec fn is_digit(b: u8) -> bool {
    48 <= b <= 57
}

pub open spec fn all_digits(s: Seq<u8>) -> bool {
    forall|i: int| 0 <= i < s.len() ==> is_digit(#[trigger] s[i])
}

/// The value of a run of decimal digits, most significant first.
pub open spec fn digits_value(s: Seq<u8>) -> nat
    decreases s.len(),
{
    if s.len() == 0 {
        0
    } else {
        digits_value(s.drop_last()) * 10 + (s.last() - 48) as nat
    }
}

/// A run of one or more digits, after an optional sign when `signed`
/// (`+` or `-`), or an optional `+` otherwise.
pub open spec fn decimal_text_value(s: Seq<u8>, signed: bool) -> Option<int> {
    if s.len() > 0 && (s[0] == 43u8 || (signed && s[0] == 45u8)) {
        let rest = s.subrange(1, s.len() as int);
        if rest.len() > 0 && all_digits(rest) {
            Some(if s[0] == 45u8 { -digits_value(rest) } else { digits_value(rest) as int })
        } else {
            None
        }
    } else if s.len() > 0 && all_digits(s) {
        Some(digits_value(s) as int)
    } else {
        None
    }
}

/// What reading `s` as an `i64` gives: the signed decimal value, if it fits.
pub open spec fn i64_of_text(s: Seq<u8>) -> Option<i64> {
    match decimal_text_value(s, true) {
        Some(n) => if i64::MIN <= n <= i64::MAX { Some(n as i64) } else { None },
        None => None,
    }
}

/// What reading `s` as a `u64` gives: the unsigned decimal value, if it fits.
pub open spec fn u64_of_text(s: Seq<u8>) -> Option<u64> {
    match decimal_text_value(s, false) {
        Some(n) => if 0 <= n <= u64::MAX { Some(n as u64) } else { None },
        None => None,
    }
}

/// The canonical decimal digits of `n`.
pub open spec fn decimal(n: nat) -> Seq<u8>
    decreases n,
{
    if n < 10 {
        seq![(48 + n) as u8]
    } else {
        decimal(n / 10).push((48 + n % 10) as u8)
    }
}

/// The canonical text of a signed integer: a `-` for negatives, then the digits.
pub open spec fn int_text(n: int) -> Seq<u8> {
    if n < 0 {
        seq![45u8] + decimal((-n) as nat)
    } else {
        decimal(n as nat)
    }
}

proof fn lemma_digits_prefix_le(s: Seq<u8>, j: int)
    requires
        0 <= j <= s.len(),
    ensures
        digits_value(s.take(j)) <= digits_value(s),
    decreases s.len(),
{
    if j < s.len() {
        assert(s.drop_last().take(j) =~= s.take(j));
        lemma_digits_prefix_le(s.drop_last(), j);
    } else {
        assert(s.take(j) =~= s);
    }
}

proof fn lemma_decimal(n: nat)
    ensures
        decimal(n).len() >= 1,
        all_digits(decimal(n)),
        digits_value(decimal(n)) == n,
        decimal(n)[0] != 43u8 && decimal(n)[0] != 45u8,
    decreases n,
{
    if n >= 10 {
        lemma_decimal(n / 10);
        assert(decimal(n).drop_last() =~= decimal(n / 10));
        assert(n == (n / 10) * 10 + n % 10) by (nonlinear_arith);
        assert(decimal(n).last() == (48 + n % 10) as u8);
    } else {
        assert(decimal(n).drop_last() =~= Seq::<u8>::empty());
        assert(digits_value(Seq::<u8>::empty()) == 0);
    }
}

/// The canonical text of an integer is ASCII: digits, and a leading `-`.
pub proof fn lemma_int_text_ascii(n: int)
    ensures
        forall|i: int| 0 <= i < int_text(n).len() ==> #[trigger] int_text(n)[i] <= 57u8,
        forall|i: int| 0 <= i < int_text(n).len() ==> #[trigger] int_text(n)[i] != 13u8,
{
    if n < 0 {
        lemma_decimal((-n) as nat);
        let t = int_text(n);
        assert forall|i: int| 1 <= i < t.len() implies t[i] == decimal((-n) as nat)[i - 1] by {}
    } else {
        lemma_decimal(n as nat);
    }
}

/// Reading the canonical text of an `i64` gives the number back.
pub proof fn lemma_int_text_round_trip(n: i64)
    ensures
        i64_of_text(int_text(n as int)) == Some(n),
        int_text(n as int).len() >= 1,
{
    if n < 0 {
        let t = int_text(n as int);
        lemma_decimal((-n) as nat);
        assert(t.subrange(1, t.len() as int) =~= decimal((-n) as nat));
    } else {
        lemma_decimal(n as nat);
    }
}

/// Reads `s` as decimal digits after an optional sign, as `i64` or `u64` do.
/// Returns the magnitude and whether it is negative; `None` where `s` is not
/// such text or the magnitude exceeds `u64::MAX`.
fn read_decimal(s: &[u8], signed: bool) -> (r: Option<(u64, bool)>)
    ensures
        r matches Some(p) ==> decimal_text_value(s@, signed) == Some(
            if p.1 { -(p.0 as int) } else { p.0 as int },
        ),
        r is None ==> (decimal_text_value(s@, signed) is None
            || decimal_text_value(s@, signed)->0 > u64::MAX
            || decimal_text_value(s@, signed)->0 < -(u64::MAX as int)),
{
    let len = s.len();
    if len == 0 {
        return None;
    }
    let neg = signed && s[0] == 45u8;
    let start: usize = if s[0] == 43u8 || neg { 1 } else { 0 };
    if start == len {
        assert(s@.subrange(1, len as int).len() == 0);
        return None;
    }
    let ghost digits = s@.subrange(start as int, len as int);
    if start == 0 {
        assert(digits =~= s@);
    }
    let mut acc: u64 = 0;
    let mut i: usize = start;
    while i < len
        invariant
            start <= i <= len,
            len == s@.len(),
            len > 0,
            neg == (signed && s@[0] == 45u8),
            start == 1 <==> (s@[0] == 43u8 || neg),
            start == 0 || start == 1,
            start == 0 ==> digits == s@,
            digits == s@.subrange(start as int, len as int),
            all_digits(s@.subrange(start as int, i as int)),
            acc as nat == digits_value(s@.subrange(start as int, i as int)),
        decreases len - i,
    {
        let b = s[i];
        if b < 48 || b > 57 {
            assert(!all_digits(digits)) by {
                assert(digits[i - start] == b);
            }
            return None;
        }
        let d = (b - 48) as u64;
        let ghost prev = s@.subrange(start as int, i as int);
        let ghost next = s@.subrange(start as int, i + 1);
        assert(next.drop_last() =~= prev);
        if acc > (u64::MAX - d) / 10 {
            proof {
                assert(digits_value(next) > u64::MAX) by (nonlinear_arith)
                    requires
                        acc > (u64::MAX - d) / 10,
                        digits_value(next) == acc * 10 + d,
                        d <= 9,
                ;
                if all_digits(digits) {
                    assert(digits.take(i + 1 - start) =~= next);
                    lemma_digits_prefix_le(digits, i + 1 - start);
                }
            }
            return None;
        }
        acc = acc * 10 + d;
        i = i + 1;
        assert(all_digits(next)) by {
            assert forall|k: int| 0 <= k < next.len() implies is_digit(#[trigger] next[k]) by {
                if k < next.len() - 1 {
                    assert(next[k] == prev[k]);
                }
            }
        }
    }
    assert(s@.subrange(start as int, i as int) =~= digits);
    if start == 0 {
        assert(digits =~= s@);
    }
    Some((acc, neg))
}

/// Reads `s` as an `i64`, as Rust's `str::parse::<i64>` does on ASCII text.
pub fn parse_i64(s: &[u8]) -> (r: Option<i64>)
    ensures
        r == i64_of_text(s@),
{
    match read_decimal(s, true) {
        Some((m, neg)) => {
            if neg {
                if m <= 9223372036854775807 {
                    Some(-(m as i64))
                } else if m == 9223372036854775808 {
                    Some(i64::MIN)
                } else {
                    None
                }
            } else if m <= 9223372036854775807 {
                Some(m as i64)
            } else {
                None
            }
        },
        None => None,
    }
}

/// Reads `s` as a `u64`, as Rust's `str::parse::<u64>` does on ASCII text.
pub fn parse_u64(s: &[u8]) -> (r: Option<u64>)
    ensures
        r == u64_of_text(s@),
{
    match read_decimal(s, false) {
        Some((m, _)) => Some(m),
        None => None,
    }
}

/// Appends the canonical decimal digits of `n` to `out`.
fn push_digits(out: &mut Vec<u8>, n: u64)
    ensures
        final(out)@ == old(out)@ + decimal(n as nat),
    decreases n,
{
    if n >= 10 {
        push_digits(out, n / 10);
    }
    out.push((48 + n % 10) as u8);
    assert(final(out)@ =~= old(out)@ + decimal(n as nat));
}

/// Appends the canonical decimal text of a count to `out`.
pub fn push_count_text(out: &mut Vec<u8>, n: usize)
    ensures
        final(out)@ == old(out)@ + int_text(n as int),
{
    push_digits(out, n as u64);
}

/// Appends the canonical decimal text of `n` to `out`.
pub fn push_int_text(out: &mut Vec<u8>, n: i64)
    ensures
        final(out)@ == old(out)@ + int_text(n as int),
{
    if n < 0 {
        out.push(45u8);
        let m: u64 = if n == i64::MIN { 9223372036854775808 } else { (-n) as u64 };
        push_digits(out, m);
        assert(final(out)@ =~= old(out)@ + int_text(n as int));
    } else {
        push_digits(out, n as u64);
    }
}

} // verus!
