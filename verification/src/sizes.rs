//! Byte counts: showing them with a unit, and reading them with one.

use crate::app::App;
use crate::numbers::{decimal, decimal_text, digit_char};
use crate::text::{
    all_white, chars_between, chars_of, ends_with, is_white_space,
    law_trimming_takes_the_white_space_around, string_of, trim_bounds, trimmed,
};
use vstd::arithmetic::power2::pow2;
use vstd::prelude::*;

verus! {

pub const KB: u64 = 1024;

pub const MB: u64 = 1048576;

pub const GB: u64 = 1073741824;

pub const TB: u64 = 1099511627776;

/// Every whole number below this one is exact in double precision.
pub const EXACT_LIMIT: u64 = 9007199254740992;

/// `num / den` to the nearest whole number; a tie goes to the even one.
pub open spec fn round_half_even(num: nat, den: nat) -> nat {
    let q = num / den;
    let r = num % den;
    if 2 * r < den || (2 * r == den && q % 2 == 0) {
        q
    } else {
        q + 1
    }
}

/// The distance between neighbouring double-precision numbers at `n`, for whole numbers from the
/// exact range on.
pub open spec fn double_step(n: nat) -> nat
    decreases n,
{
    if n < EXACT_LIMIT {
        1
    } else {
        2 * double_step(n / 2)
    }
}

/// The double-precision number nearest to `n`.
pub open spec fn nearest_double(n: nat) -> nat {
    round_half_even(n, double_step(n)) * double_step(n)
}

/// `bytes` in hundredths of `unit`, rounded, where `bytes` is first brought to double precision.
pub open spec fn hundredths(bytes: nat, unit: nat) -> nat {
    round_half_even(nearest_double(bytes) * 100, unit)
}

/// A number of hundredths with its two places after the point.
pub open spec fn two_places(h: nat) -> Seq<char> {
    decimal(h / 100).push('.').push(digit_char(h / 10 % 10)).push(digit_char(h % 10))
}

/// `bytes` in the largest unit of which there is at least one, with two places after the point;
/// below a kilobyte, plain bytes.
pub open spec fn size_text(bytes: nat) -> Seq<char> {
    if bytes >= TB {
        two_places(hundredths(bytes, TB as nat)) + " TB"@
    } else if bytes >= GB {
        two_places(hundredths(bytes, GB as nat)) + " GB"@
    } else if bytes >= MB {
        two_places(hundredths(bytes, MB as nat)) + " MB"@
    } else if bytes >= KB {
        two_places(hundredths(bytes, KB as nat)) + " KB"@
    } else {
        decimal(bytes) + " B"@
    }
}

/// What is shown while downloads run.
pub open spec fn progress_text(total: nat) -> Seq<char> {
    size_text(total) + " downloaded"@
}

/// What is shown once all downloads have ended.
pub open spec fn done_text(total: nat) -> Seq<char> {
    "Done! "@ + size_text(total) + " total"@
}

/// A rounded quotient is off by half at most.
pub proof fn lemma_round_half_even(num: nat, den: nat)
    requires
        den > 0,
    ensures
        2 * num - den <= 2 * (round_half_even(num, den) * den) <= 2 * num + den,
{
    let q = num / den;
    let r = num % den;
    assert(num == q * den + r) by {
        vstd::arithmetic::div_mod::lemma_fundamental_div_mod(num as int, den as int);
        vstd::arithmetic::mul::lemma_mul_is_commutative(q as int, den as int);
    }
    assert((q + 1) * den == q * den + den) by (nonlinear_arith);
}

/// The distance between neighbours is positive, and below the exact limit it is one.
pub proof fn lemma_double_step(n: nat)
    ensures
        double_step(n) > 0,
        n < EXACT_LIMIT ==> double_step(n) == 1,
        n >= EXACT_LIMIT ==> double_step(n) * EXACT_LIMIT <= 2 * n,
    decreases n,
{
    if n >= EXACT_LIMIT {
        lemma_double_step(n / 2);
    }
}

/// Below the exact limit a whole number is its own nearest double-precision number.
pub proof fn lemma_exact_below_limit(n: nat)
    requires
        n < EXACT_LIMIT,
    ensures
        nearest_double(n) == n,
{
    lemma_double_step(n);
    assert(n / 1 == n && n % 1 == 0);
}

/// What is shown is off by at most half of the last place from the count in double precision,
/// which is off from the count by at most half the distance between its neighbours, and not at
/// all below the exact limit.
pub proof fn law_shown_size_is_close(bytes: nat, unit: nat)
    requires
        unit > 0,
    ensures
        2 * (100 * nearest_double(bytes)) - unit <= 2 * (hundredths(bytes, unit) * unit) <= 2 * (
        100 * nearest_double(bytes)) + unit,
        2 * bytes - double_step(bytes) <= 2 * nearest_double(bytes) <= 2 * bytes + double_step(
            bytes,
        ),
        bytes < EXACT_LIMIT ==> nearest_double(bytes) == bytes,
{
    lemma_double_step(bytes);
    lemma_round_half_even(bytes, double_step(bytes));
    lemma_round_half_even(nearest_double(bytes) * 100, unit);
    if bytes < EXACT_LIMIT {
        lemma_exact_below_limit(bytes);
    }
}

/// A whole number of units is shown with zeros after the point.
pub proof fn law_whole_units_are_shown_exactly(count: nat, unit: nat)
    requires
        unit > 0,
        count * unit < EXACT_LIMIT,
    ensures
        hundredths(count * unit, unit) == 100 * count,
{
    lemma_exact_below_limit(count * unit);
    assert((count * unit) * 100 == (count * 100) * unit) by (nonlinear_arith);
    vstd::arithmetic::div_mod::lemma_div_multiples_vanish((count * 100) as int, unit as int);
    vstd::arithmetic::mul::lemma_mul_is_commutative((count * 100) as int, unit as int);
    vstd::arithmetic::div_mod::lemma_mod_multiples_basic((count * 100) as int, unit as int);
}

/// `num / den` to the nearest whole number; a tie goes to the even one.
fn rounded(num: u128, den: u128) -> (r: u128)
    requires
        0 < den,
        den < 0x1_0000_0000_0000_0000,
        num < 0x1_0000_0000_0000_0000_0000,
    ensures
        r == round_half_even(num as nat, den as nat),
{
    let q: u128 = num / den;
    let rest: u128 = num % den;
    assert(q <= num) by (nonlinear_arith)
        requires
            q == num / den,
            den > 0,
    ;
    if 2 * rest < den || (2 * rest == den && q % 2 == 0) {
        q
    } else {
        q + 1
    }
}

/// The double-precision number nearest to `n`.
fn to_double(n: u64) -> (r: u128)
    ensures
        r == nearest_double(n as nat),
        r <= 0x1_0000_0000_0000_0000 + 4096,
{
    let mut step: u128 = 1;
    let mut rest: u64 = n;
    proof {
        lemma_double_step(n as nat);
    }
    while rest >= EXACT_LIMIT
        invariant
            step * double_step(rest as nat) == double_step(n as nat),
            double_step(n as nat) <= 4096,
            0 < step,
        decreases rest,
    {
        let ghost half = double_step((rest / 2) as nat);
        proof {
            lemma_double_step((rest / 2) as nat);
            assert(step * (2 * half) == (2 * step) * half) by (nonlinear_arith);
            assert(2 * step <= (2 * step) * half) by (nonlinear_arith)
                requires
                    half >= 1,
            ;
        }
        step = 2 * step;
        rest = rest / 2;
    }
    proof {
        lemma_double_step(rest as nat);
        lemma_round_half_even(n as nat, step as nat);
    }
    let q: u128 = rounded(n as u128, step);
    q * step
}

/// A number of hundredths with its two places after the point.
fn two_places_text(h: u64) -> (s: String)
    ensures
        s@ == two_places(h as nat),
{
    let mut s = decimal_text(h / 100);
    let tens: u8 = 48 + (h / 10 % 10) as u8;
    let ones: u8 = 48 + (h % 10) as u8;
    s.push('.');
    s.push(tens as char);
    s.push(ones as char);
    s
}

/// `bytes` in hundredths of `unit`, with two places after the point.
fn in_unit(bytes: u64, unit: u64, name: &str) -> (s: String)
    requires
        unit >= 1024,
    ensures
        s@ == two_places(hundredths(bytes as nat, unit as nat)) + name@,
{
    let scaled: u128 = to_double(bytes) * 100;
    let h: u128 = rounded(scaled, unit as u128);
    proof {
        lemma_round_half_even(scaled as nat, unit as nat);
        assert(h <= 0xffff_ffff_ffff_ffff) by (nonlinear_arith)
            requires
                2 * (h * unit) <= 2 * scaled + unit,
                scaled <= (0x1_0000_0000_0000_0000 + 4096) * 100,
                unit >= 1024,
        ;
    }
    let mut s = two_places_text(h as u64);
    s.append(name);
    s
}

impl App {
    /// `bytes` in the largest unit of which there is at least one.
    pub fn format_bytes(bytes: u64) -> (s: String)
        ensures
            s@ == size_text(bytes as nat),
    {
        if bytes >= TB {
            in_unit(bytes, TB, " TB")
        } else if bytes >= GB {
            in_unit(bytes, GB, " GB")
        } else if bytes >= MB {
            in_unit(bytes, MB, " MB")
        } else if bytes >= KB {
            in_unit(bytes, KB, " KB")
        } else {
            let mut s = decimal_text(bytes);
            s.append(" B");
            s
        }
    }

    /// What is shown while downloads run.
    pub fn progress_message(total: u64) -> (s: String)
        ensures
            s@ == progress_text(total as nat),
    {
        let mut s = Self::format_bytes(total);
        s.append(" downloaded");
        s
    }

    /// What is shown once all downloads have ended.
    pub fn done_message(total: u64) -> (s: String)
        ensures
            s@ == done_text(total as nat),
    {
        let size = Self::format_bytes(total);
        let mut s = "Done! ".to_owned();
        s.append(size.as_str());
        s.append(" total");
        s
    }
}

/// The text of a size without its unit, and the number of bytes in that unit; none where the
/// text ends in no unit. White space around the text does not count.
pub open spec fn size_parts(s: Seq<char>) -> Option<(Seq<char>, u64)> {
    let t = trimmed(s);
    if "GiB"@.is_suffix_of(t) {
        Some((t.take(t.len() - 3), GB))
    } else if "MiB"@.is_suffix_of(t) {
        Some((t.take(t.len() - 3), MB))
    } else if "KiB"@.is_suffix_of(t) {
        Some((t.take(t.len() - 3), KB))
    } else if "B"@.is_suffix_of(t) {
        Some((t.take(t.len() - 1), 1))
    } else {
        None
    }
}

/// The view of the parts of a size.
pub open spec fn size_parts_view(p: Option<(String, u64)>) -> Option<(Seq<char>, u64)> {
    match p {
        Some((number, multiplier)) => Some((number@, multiplier)),
        None => None,
    }
}

impl App {
    /// Splits a size such as `1.2GiB` into the text of its number and the bytes in its unit.
    pub fn split_size(s: &str) -> (r: Option<(String, u64)>)
        ensures
            size_parts_view(r) == size_parts(s@),
    {
        let v = chars_of(s);
        split_size_chars(&v)
    }
}

/// As `App::split_size`, on characters.
pub fn split_size_chars(v: &Vec<char>) -> (r: Option<(String, u64)>)
    ensures
        size_parts_view(r) == size_parts(v@),
{
    let (from, to) = trim_bounds(v);
    let t = chars_between(v, from, to);
    let n: usize = t.len();
    proof {
        reveal_strlit("GiB");
        reveal_strlit("MiB");
        reveal_strlit("KiB");
        reveal_strlit("B");
    }
    if ends_with(&t, "GiB") {
        Some((string_of(&t, 0, n - 3), GB))
    } else if ends_with(&t, "MiB") {
        Some((string_of(&t, 0, n - 3), MB))
    } else if ends_with(&t, "KiB") {
        Some((string_of(&t, 0, n - 3), KB))
    } else if ends_with(&t, "B") {
        Some((string_of(&t, 0, n - 1), 1))
    } else {
        None
    }
}

/// An amount of `h` hundredths of a unit, as it is shown.
pub open spec fn amount_text(h: nat, unit_name: Seq<char>) -> Seq<char> {
    decimal(h / 100) + "."@ + decimal(h / 10 % 10) + decimal(h % 10) + unit_name
}

/// `q` is `num / den` to the nearest whole number, and the even one of two that are as near.
pub open spec fn is_nearest(q: nat, num: nat, den: nat) -> bool {
    &&& 2 * num - den <= 2 * (q * den) <= 2 * num + den
    &&& 2 * num - den == 2 * (q * den) || 2 * (q * den) == 2 * num + den ==> q % 2 == 0
}

proof fn lemma_nearest(num: nat, den: nat)
    requires
        den > 0,
    ensures
        is_nearest(round_half_even(num, den), num, den),
{
    let q = num / den;
    let r = num % den;
    assert(num == q * den + r) by {
        vstd::arithmetic::div_mod::lemma_fundamental_div_mod(num as int, den as int);
        vstd::arithmetic::mul::lemma_mul_is_commutative(q as int, den as int);
    }
    assert((q + 1) * den == q * den + den) by (nonlinear_arith);
}

/// `d` is the double-precision number nearest to `n`: below 2^53 the number itself, and from there
/// on the nearest multiple of the power of two that leaves 53 bits.
pub open spec fn is_double_of(d: nat, n: nat, bits: nat) -> bool {
    &&& n < 0x20_0000_0000_0000 ==> bits == 0
    &&& n >= 0x20_0000_0000_0000 ==> 0x10_0000_0000_0000 * pow2(bits) <= n < 0x20_0000_0000_0000
        * pow2(bits)
    &&& d % pow2(bits) == 0
    &&& is_nearest(d / pow2(bits), n, pow2(bits))
}

proof fn lemma_step_is_a_power(n: nat) -> (bits: nat)
    ensures
        double_step(n) == pow2(bits),
        n < 0x20_0000_0000_0000 ==> bits == 0,
        n >= 0x20_0000_0000_0000 ==> 0x10_0000_0000_0000 * pow2(bits) <= n < 0x20_0000_0000_0000
            * pow2(bits),
    decreases n,
{
    if n < 0x20_0000_0000_0000 {
        vstd::arithmetic::power2::lemma2_to64();
        0
    } else {
        let k = lemma_step_is_a_power(n / 2);
        vstd::arithmetic::power2::lemma_pow2_unfold(k + 1);
        vstd::arithmetic::power2::lemma2_to64();
        k + 1
    }
}

/// Below a kilobyte a count is shown as it is, in bytes.
pub proof fn law_small_counts_are_shown_in_bytes(bytes: nat)
    requires
        bytes < 1024,
    ensures
        size_text(bytes) == decimal(bytes) + " B"@,
{
}

/// From a kilobyte on a count is shown in the largest of the units of 1024, 1024^2, 1024^3 and
/// 1024^4 bytes that it reaches, with two places after the point: the nearest hundredths of what
/// the count is in double precision.
pub proof fn law_sizes_are_shown_in_the_largest_unit(bytes: nat)
    requires
        bytes >= 1024,
    ensures
        exists|h: nat, d: nat, bits: nat|
            {
                &&& #[trigger] is_double_of(d, bytes, bits)
                &&& if bytes < 1024 * 1024 {
                    size_text(bytes) == #[trigger] amount_text(h, " KB"@) && is_nearest(
                        h,
                        100 * d,
                        1024,
                    )
                } else if bytes < 1024 * 1024 * 1024 {
                    size_text(bytes) == amount_text(h, " MB"@) && is_nearest(
                        h,
                        100 * d,
                        1024 * 1024,
                    )
                } else if bytes < 1024 * 1024 * 1024 * 1024 {
                    size_text(bytes) == amount_text(h, " GB"@) && is_nearest(
                        h,
                        100 * d,
                        1024 * 1024 * 1024,
                    )
                } else {
                    size_text(bytes) == amount_text(h, " TB"@) && is_nearest(
                        h,
                        100 * d,
                        1024 * 1024 * 1024 * 1024,
                    )
                }
            },
{
    let bits = lemma_step_is_a_power(bytes);
    let step = pow2(bits);
    let d = nearest_double(bytes);
    let q = round_half_even(bytes, step);
    vstd::arithmetic::power2::lemma_pow2_pos(bits);
    lemma_nearest(bytes, step);
    assert(d == q * step);
    vstd::arithmetic::div_mod::lemma_div_multiples_vanish(q as int, step as int);
    vstd::arithmetic::mul::lemma_mul_is_commutative(q as int, step as int);
    vstd::arithmetic::div_mod::lemma_mod_multiples_basic(q as int, step as int);
    assert(is_double_of(d, bytes, bits));
    let (unit, name) = if bytes < 1024 * 1024 {
        (1024nat, " KB"@)
    } else if bytes < 1024 * 1024 * 1024 {
        ((1024 * 1024) as nat, " MB"@)
    } else if bytes < 1024 * 1024 * 1024 * 1024 {
        ((1024 * 1024 * 1024) as nat, " GB"@)
    } else {
        ((1024 * 1024 * 1024 * 1024) as nat, " TB"@)
    };
    let h = hundredths(bytes, unit);
    lemma_nearest(d * 100, unit);
    assert(d * 100 == 100 * d);
    reveal_strlit(".");
    assert(two_places(h) + name =~= amount_text(h, name));
    assert(size_text(bytes) == amount_text(h, name));
    assert(amount_text(h, " KB"@).len() >= 0);
}

/// A number with a unit is split into the number's text and the bytes in the unit, whatever the
/// number and whatever white space stands around it.
pub proof fn law_a_size_is_split_at_its_unit(before: Seq<char>, number: Seq<char>, after: Seq<char>)
    requires
        all_white(before),
        all_white(after),
        number.len() > 0 ==> !is_white_space(number[0]),
    ensures
        size_parts(before + number + "GiB"@ + after) == Some((number, 1073741824u64)),
        size_parts(before + number + "MiB"@ + after) == Some((number, 1048576u64)),
        size_parts(before + number + "KiB"@ + after) == Some((number, 1024u64)),
        !(number.len() >= 2 && number[number.len() - 1] == 'i' && (number[number.len() - 2] == 'G'
            || number[number.len() - 2] == 'M' || number[number.len() - 2] == 'K')) ==> size_parts(
            before + number + "B"@ + after,
        ) == Some((number, 1u64)),
{
    reveal_strlit("GiB");
    reveal_strlit("MiB");
    reveal_strlit("KiB");
    reveal_strlit("B");
    let g = number + "GiB"@;
    let m = number + "MiB"@;
    let k = number + "KiB"@;
    let b = number + "B"@;
    let n = number.len() as int;
    assert(before + number + "GiB"@ + after =~= before + g + after);
    assert(before + number + "MiB"@ + after =~= before + m + after);
    assert(before + number + "KiB"@ + after =~= before + k + after);
    assert(before + number + "B"@ + after =~= before + b + after);
    assert(g[n] == 'G' && m[n] == 'M' && k[n] == 'K' && b[n] == 'B');
    assert(g[n + 2] == 'B' && m[n + 2] == 'B' && k[n + 2] == 'B');
    assert(n > 0 ==> g[0] == number[0] && m[0] == number[0] && k[0] == number[0] && b[0] == number[0]);
    law_trimming_takes_the_white_space_around(before, g, after);
    law_trimming_takes_the_white_space_around(before, m, after);
    law_trimming_takes_the_white_space_around(before, k, after);
    law_trimming_takes_the_white_space_around(before, b, after);
    assert(g.subrange(n, n + 3) =~= "GiB"@);
    assert(m.subrange(n, n + 3) =~= "MiB"@);
    assert(m.subrange(n, n + 3)[0] == 'M');
    assert(k.subrange(n, n + 3) =~= "KiB"@);
    assert(k.subrange(n, n + 3)[0] == 'K');
    assert(b.subrange(n, n + 1) =~= "B"@);
    assert(g.take(n) =~= number);
    assert(m.take(n) =~= number);
    assert(k.take(n) =~= number);
    assert(b.take(n) =~= number);
    if n >= 2 {
        let end = b.subrange(n - 2, n + 1);
        assert(end[0] == number[n - 2] && end[1] == number[n - 1]);
        assert("GiB"@[1] == 'i' && "MiB"@[1] == 'i' && "KiB"@[1] == 'i');
        assert("GiB"@[0] == 'G' && "MiB"@[0] == 'M' && "KiB"@[0] == 'K');
    }
}

/// A text that, without the white space around it, does not end in `B` is no size.
pub proof fn law_a_size_ends_in_its_unit(before: Seq<char>, text: Seq<char>, after: Seq<char>)
    requires
        all_white(before),
        all_white(after),
        text.len() > 0 ==> !is_white_space(text[0]) && !is_white_space(text[text.len() - 1]),
        text.len() > 0 ==> text[text.len() - 1] != 'B',
    ensures
        size_parts(before + text + after) is None,
{
    reveal_strlit("GiB");
    reveal_strlit("MiB");
    reveal_strlit("KiB");
    reveal_strlit("B");
    law_trimming_takes_the_white_space_around(before, text, after);
    let n = text.len() as int;
    if n >= 3 {
        assert(text.subrange(n - 3, n)[2] == text[n - 1]);
    }
    if n >= 1 {
        assert(text.subrange(n - 1, n)[0] == text[n - 1]);
    }
}

/// The messages show the total as sizes are shown.
pub proof fn law_messages_show_the_total(total: nat)
    ensures
        progress_text(total) == size_text(total) + " downloaded"@,
        done_text(total) == "Done! "@ + size_text(total) + " total"@,
{
}

} // verus!
