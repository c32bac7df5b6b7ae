//! Decimal numerals: writing a number down and reading it back.

use crate::text::chars_of;
use vstd::prelude::*;

verus! {

/// The character that stands for the digit `d`.
pub open spec fn digit_char(d: nat) -> char {
    ('0' as u32 + d) as char
}

/// `c` is one of `0` to `9`.
pub open spec fn is_digit(c: char) -> bool {
    '0' as u32 <= c as u32 <= '9' as u32
}

/// `n` in decimal, without leading zeros.
pub open spec fn decimal(n: nat) -> Seq<char>
    decreases n,
{
    if n < 10 {
        seq![digit_char(n)]
    } else {
        decimal(n / 10).push(digit_char(n % 10))
    }
}

/// Every character is a digit.
pub open spec fn all_digits(s: Seq<char>) -> bool {
    forall|i: int| 0 <= i < s.len() ==> is_digit(#[trigger] s[i])
}

/// The number that a string of digits stands for.
pub open spec fn digits_value(s: Seq<char>) -> nat
    decreases s.len(),
{
    if s.len() == 0 {
        0
    } else {
        digits_value(s.drop_last()) * 10 + (s.last() as u32 - '0' as u32) as nat
    }
}

/// `s` without one leading `+`.
pub open spec fn without_plus(s: Seq<char>) -> Seq<char> {
    if s.len() > 0 && s[0] == '+' {
        s.skip(1)
    } else {
        s
    }
}

/// What `s` reads as: an optional `+`, then digits only, at least one, within 64 bits.
pub open spec fn read_u64(s: Seq<char>) -> Option<u64> {
    let digits = without_plus(s);
    if digits.len() > 0 && all_digits(digits) && digits_value(digits) <= u64::MAX {
        Some(digits_value(digits) as u64)
    } else {
        None
    }
}

/// More digits never make a smaller number.
proof fn lemma_value_grows(s: Seq<char>, k: int)
    requires
        0 <= k <= s.len(),
        all_digits(s),
    ensures
        digits_value(s.take(k)) <= digits_value(s),
    decreases s.len(),
{
    if k < s.len() {
        assert(s.drop_last().take(k) == s.take(k));
        assert(all_digits(s.drop_last()));
        lemma_value_grows(s.drop_last(), k);
        assert(is_digit(s.last()));
    } else {
        assert(s.take(k) == s);
    }
}

/// A numeral is digits alone, at least one of them.
pub proof fn lemma_decimal_is_digits(n: nat)
    ensures
        all_digits(decimal(n)),
        decimal(n).len() > 0,
    decreases n,
{
    if n >= 10 {
        lemma_decimal_is_digits(n / 10);
    }
}

/// A numeral stands for the number that it was written for.
pub proof fn lemma_decimal_value(n: nat)
    ensures
        digits_value(decimal(n)) == n,
    decreases n,
{
    if n >= 10 {
        lemma_decimal_value(n / 10);
        assert(decimal(n).drop_last() == decimal(n / 10));
    } else {
        assert(decimal(n).drop_last() == Seq::<char>::empty());
        assert(digits_value(decimal(n).drop_last()) == 0);
    }
}

/// Reading a written number gives the number back.
pub proof fn law_read_gives_back_written(n: u64)
    ensures
        read_u64(decimal(n as nat)) == Some(n),
{
    lemma_decimal_is_digits(n as nat);
    lemma_decimal_value(n as nat);
    assert(is_digit(decimal(n as nat)[0]));
}

/// Different numbers are written differently.
pub proof fn law_decimal_injective(a: nat, b: nat)
    requires
        decimal(a) == decimal(b),
    ensures
        a == b,
{
    lemma_decimal_value(a);
    lemma_decimal_value(b);
}

/// `n` in decimal.
pub fn decimal_text(n: u64) -> (s: String)
    ensures
        s@ == decimal(n as nat),
    decreases n,
{
    let digit: u8 = 48 + (n % 10) as u8;
    let mut s = if n < 10 {
        String::new()
    } else {
        decimal_text(n / 10)
    };
    s.push(digit as char);
    assert(s@ == decimal(n as nat));
    s
}

/// Reads a decimal number of at most 64 bits, with an optional leading `+`.
pub fn parse_u64(s: &str) -> (r: Option<u64>)
    ensures
        r == read_u64(s@),
{
    let v = chars_of(s);
    parse_u64_chars(&v)
}

/// As `parse_u64`, on characters.
pub fn parse_u64_chars(v: &Vec<char>) -> (r: Option<u64>)
    ensures
        r == read_u64(v@),
{
    let n: usize = v.len();
    let start: usize = if n > 0 && v[0] == '+' {
        1
    } else {
        0
    };
    let ghost digits = without_plus(v@);
    assert(digits == v@.skip(start as int));
    if start == n {
        return None;
    }
    let mut i: usize = start;
    let mut value: u64 = 0;
    while i < n
        invariant
            n == v@.len(),
            start <= i <= n,
            start < n,
            digits == v@.skip(start as int),
            digits == without_plus(v@),
            all_digits(digits.take(i - start)),
            value == digits_value(digits.take(i - start)),
        decreases n - i,
    {
        let c: char = v[i];
        let ghost k = i - start;
        assert(digits[k] == c);
        let code: u32 = c as u32;
        if code < 48 || code > 57 {
            assert(!is_digit(digits[k]));
            return None;
        }
        let d: u64 = (code - 48) as u64;
        assert(digits.take(k + 1).drop_last() == digits.take(k));
        assert(digits.take(k + 1).last() == c);
        assert(all_digits(digits.take(k + 1)));
        if value > (u64::MAX - d) / 10 {
            proof {
                assert(digits_value(digits.take(k + 1)) > u64::MAX);
                if all_digits(digits) {
                    lemma_value_grows(digits, k + 1);
                }
            }
            return None;
        }
        value = value * 10 + d;
        i += 1;
    }
    assert(digits.take(n - start) == digits);
    Some(value)
}

/// A number below ten is written as the one character for it, and ten times a number and a digit as
/// the number with that digit behind it.
pub proof fn law_numerals_grow_by_a_digit(n: nat, d: nat)
    requires
        d < 10,
    ensures
        decimal(d).len() == 1,
        decimal(d)[0] as u32 == 48 + d,
        n > 0 ==> decimal(10 * n + d) == decimal(n) + decimal(d),
{
    let m = 10 * n + d;
    if n > 0 {
        assert(m / 10 == n && m % 10 == d);
        assert(decimal(n) + decimal(d) =~= decimal(n).push(digit_char(d)));
    }
}

/// One character is read as a number exactly where it is a digit.
pub proof fn law_a_digit_is_read(c: char)
    ensures
        read_u64(seq![c]) == (if 48 <= c as u32 <= 57 {
            Some((c as u32 - 48) as u64)
        } else {
            None
        }),
{
    let s = seq![c];
    if s[0] == '+' {
        assert(s.skip(1) =~= Seq::<char>::empty());
    } else {
        assert(s.drop_last() =~= Seq::<char>::empty());
        assert(digits_value(s.drop_last()) == 0);
        assert(all_digits(s) ==> is_digit(s[0]));
    }
}

/// A numeral is read digit by digit: a further digit makes ten times the number and the digit of
/// it, as long as that fits in 64 bits, and anything else makes it unreadable.
pub proof fn law_reading_goes_digit_by_digit(s: Seq<char>, c: char)
    requires
        s.len() > 0,
        s != seq!['+'],
    ensures
        read_u64(s.push(c)) == (match read_u64(s) {
            Some(n) => if 48 <= c as u32 <= 57 && 10 * n + (c as u32 - 48) <= u64::MAX {
                Some((10 * n + (c as u32 - 48)) as u64)
            } else {
                None
            },
            None => None,
        }),
{
    let more = s.push(c);
    let a = without_plus(s);
    let b = without_plus(more);
    assert(more[0] == s[0]);
    assert(b =~= a.push(c));
    assert(a.len() > 0) by {
        if a.len() == 0 {
            assert(s =~= seq!['+']);
        }
    }
    assert(b.drop_last() =~= a);
    assert(all_digits(b) <==> all_digits(a) && is_digit(c)) by {
        assert(b[a.len() as int] == c);
        if all_digits(b) {
            assert forall|i: int| 0 <= i < a.len() implies is_digit(#[trigger] a[i]) by {
                assert(b[i] == a[i]);
            }
            assert(is_digit(b[a.len() as int]));
        }
    }
}

/// One plus sign may stand before a numeral and does not count; nothing at all is no number.
pub proof fn law_a_plus_may_lead(s: Seq<char>)
    requires
        s.len() > 0,
        s[0] != '+',
    ensures
        read_u64(seq!['+'] + s) == read_u64(s),
        read_u64(seq![]) is None,
{
    assert((seq!['+'] + s).skip(1) =~= s);
}

/// A numeral of more than one digit does not begin with a zero.
pub proof fn lemma_no_leading_zero(n: nat)
    ensures
        decimal(n).len() > 0,
        decimal(n)[0] == '0' ==> n == 0,
    decreases n,
{
    if n >= 10 {
        lemma_no_leading_zero(n / 10);
        assert(decimal(n)[0] == decimal(n / 10)[0]);
    }
}

} // verus!
