//! Numbers as text.

use crate::digits::{lemma_fewer_places, lemma_more_places, lemma_next_place, lemma_zero_place};
use vstd::arithmetic::power::{lemma_pow0, lemma_pow1, pow};
use vstd::prelude::*;
use vstd::string::*;

verus! {

/// The digits in use, each at the place of its value.
pub open spec fn digit(d: int) -> char {
    "0123456789abcdef"@[d]
}

/// `n` in decimal, without leading zeros.
pub open spec fn decimal(n: nat) -> Seq<char>
    decreases n,
{
    if n < 10 {
        seq![digit(n as int)]
    } else {
        decimal(n / 10).push(digit((n % 10) as int))
    }
}

/// `n` copies of the digit zero.
pub open spec fn zeros(n: int) -> Seq<char> {
    Seq::new(
        if n < 0 {
            0
        } else {
            n as nat
        },
        |i: int| '0',
    )
}

/// `n` in decimal, filled up with leading zeros to at least `width` digits.
pub open spec fn decimal_padded(n: nat, width: nat) -> Seq<char> {
    zeros(width - decimal(n).len()) + decimal(n)
}

/// The `width` lowest hexadecimal digits of `n`.
pub open spec fn hex(n: nat, width: nat) -> Seq<char>
    decreases width,
{
    if width == 0 {
        Seq::empty()
    } else {
        hex(n / 16, (width - 1) as nat).push(digit((n % 16) as int))
    }
}

/// Whether `c` is one of the ten decimal digits.
pub open spec fn is_decimal_digit(c: char) -> bool {
    '0' <= c <= '9'
}

/// The number that the decimal digits `s` write down.
pub open spec fn decimal_value(s: Seq<char>) -> nat
    decreases s.len(),
{
    if s.len() == 0 {
        0
    } else {
        10 * decimal_value(s.drop_last()) + (s.last() as nat - '0' as nat) as nat
    }
}

/// Whether `s` consists of decimal digits.
pub open spec fn all_decimal_digits(s: Seq<char>) -> bool {
    forall|i: int| 0 <= i < s.len() ==> is_decimal_digit(s[i])
}

/// What follows the sign of `s`, if it has one.
pub open spec fn after_plus(s: Seq<char>) -> Seq<char> {
    if s.len() > 0 && s[0] == '+' {
        s.skip(1)
    } else {
        s
    }
}

/// The number below 2^64 that `s` writes down as decimal digits, with or
/// without a leading plus sign.
pub open spec fn parse_u64_spec(s: Seq<char>) -> Option<u64> {
    let digits = after_plus(s);
    if digits.len() > 0 && all_decimal_digits(digits) && decimal_value(digits) <= u64::MAX {
        Some(decimal_value(digits) as u64)
    } else {
        None
    }
}

proof fn lemma_digit(d: int)
    requires
        0 <= d < 10,
    ensures
        digit(d) as int == '0' as int + d,
        is_decimal_digit(digit(d)),
{
    reveal_strlit("0123456789abcdef");
}

/// Writing a number in decimal, with any filling, and reading it back gives
/// the number.
pub proof fn law_decimal_round_trip(n: u64, width: nat)
    ensures
        parse_u64_spec(decimal_padded(n as nat, width)) == Some(n),
{
    let s = decimal(n as nat);
    lemma_decimal(n as nat);
    let k = width - s.len();
    lemma_leading_zeros(
        if k < 0 {
            0
        } else {
            k as nat
        },
        s,
    );
    let t = decimal_padded(n as nat, width);
    assert(t.len() > 0);
    assert forall|i: int| 0 <= i < t.len() implies is_decimal_digit(t[i]) by {
        if i >= zeros(k).len() {
            assert(t[i] == s[i - zeros(k).len()]);
        }
    }
    assert(is_decimal_digit(t[0]));
}

proof fn lemma_decimal(n: nat)
    ensures
        decimal(n).len() > 0,
        all_decimal_digits(decimal(n)),
        decimal_value(decimal(n)) == n,
    decreases n,
{
    if n < 10 {
        lemma_digit(n as int);
        reveal_with_fuel(decimal_value, 2);
        assert(decimal(n).drop_last() =~= Seq::empty());
    } else {
        lemma_decimal(n / 10);
        lemma_digit((n % 10) as int);
        assert(decimal(n).drop_last() =~= decimal(n / 10));
    }
}

proof fn lemma_leading_zeros(k: nat, s: Seq<char>)
    ensures
        decimal_value(zeros(k as int) + s) == decimal_value(s),
    decreases k + s.len(),
{
    let t = zeros(k as int) + s;
    if s.len() > 0 {
        assert(t.drop_last() =~= zeros(k as int) + s.drop_last());
        lemma_leading_zeros(k, s.drop_last());
    } else if k > 0 {
        assert(t.drop_last() =~= zeros(k - 1) + s);
        lemma_leading_zeros((k - 1) as nat, s);
    } else {
        assert(t =~= s);
    }
}

/// Whether the characters of `s` are decimal digits that write down `n`, the
/// highest place first.
pub open spec fn writes_down(s: Seq<char>, n: int) -> bool {
    &&& s.len() > 0
    &&& 0 <= n < pow(10, s.len())
    &&& forall|i: int|
        0 <= i < s.len() ==> (#[trigger] s[i]) as int - '0' as int == n / pow(
            10,
            (s.len() - 1 - i) as nat,
        ) % 10
}

/// Whether `s` is the decimal form of `n`: its digits, without a leading zero.
pub open spec fn is_decimal_of(s: Seq<char>, n: int) -> bool {
    &&& writes_down(s, n)
    &&& s.len() > 1 ==> s[0] != '0'
}

/// The last digit stands for the ones, and the others write down the tens.
proof fn lemma_writes_down(s: Seq<char>, n: int)
    requires
        s.len() > 1,
        n >= 0,
    ensures
        writes_down(s, n) <==> writes_down(s.drop_last(), n / 10) && s.last() as int - '0' as int
            == n % 10,
{
    let rest = s.drop_last();
    lemma_fewer_places(n, 10, rest.len());
    lemma_next_place(n, 10, 0);
    if writes_down(s, n) {
        assert(s[s.len() - 1] as int - '0' as int == n / pow(10, 0) % 10);
        assert forall|i: int| 0 <= i < rest.len() implies (#[trigger] rest[i]) as int - '0' as int
            == n / 10 / pow(10, (rest.len() - 1 - i) as nat) % 10 by {
            lemma_next_place(n, 10, (rest.len() - 1 - i) as nat);
            assert(rest[i] == s[i]);
        }
    }
    if writes_down(rest, n / 10) && s.last() as int - '0' as int == n % 10 {
        assert forall|i: int| 0 <= i < s.len() implies (#[trigger] s[i]) as int - '0' as int == n
            / pow(10, (s.len() - 1 - i) as nat) % 10 by {
            if i < rest.len() {
                lemma_next_place(n, 10, (rest.len() - 1 - i) as nat);
                assert(rest[i] == s[i]);
            }
        }
    }
}

proof fn lemma_writes_down_digit(s: Seq<char>, n: int)
    requires
        s.len() == 1,
    ensures
        writes_down(s, n) <==> 0 <= n < 10 && s[0] as int - '0' as int == n,
{
    lemma_pow1(10);
    lemma_pow0(10);
    assert(pow(10, (s.len() - 1 - 0) as nat) == 1);
    if 0 <= n < 10 && s[0] as int - '0' as int == n {
        assert forall|i: int| 0 <= i < s.len() implies (#[trigger] s[i]) as int - '0' as int == n
            / pow(10, (s.len() - 1 - i) as nat) % 10 by {
            assert(i == 0);
        }
    }
    if writes_down(s, n) {
        assert(s[0] as int - '0' as int == n / pow(10, (s.len() - 1 - 0) as nat) % 10);
    }
}

/// A number in decimal is written down by its digits, without a leading zero.
pub proof fn law_decimal_writes_down(n: nat)
    ensures
        is_decimal_of(decimal(n), n as int),
    decreases n,
{
    let s = decimal(n);
    if n < 10 {
        lemma_digit(n as int);
        lemma_writes_down_digit(s, n as int);
    } else {
        law_decimal_writes_down(n / 10);
        lemma_digit((n % 10) as int);
        assert(s.drop_last() =~= decimal(n / 10));
        lemma_writes_down(s, n as int);
        if s.len() == 2 {
            lemma_writes_down_digit(decimal(n / 10), (n / 10) as int);
        }
        assert(s[0] == decimal(n / 10)[0]);
    }
}

/// A number that is filled up with zeros is still written down by its digits. It
/// has at least the width asked for, and a leading zero only up to that width.
pub proof fn law_padded_writes_down(n: nat, width: nat)
    ensures
        ({
            let s = decimal_padded(n, width);
            &&& writes_down(s, n as int)
            &&& s.len() >= width
            &&& s.len() > width && s.len() > 1 ==> s[0] != '0'
        }),
{
    let digits = decimal(n);
    let s = decimal_padded(n, width);
    let k = s.len() - digits.len();
    law_decimal_writes_down(n);
    lemma_more_places(10, digits.len(), s.len());
    assert forall|i: int| 0 <= i < s.len() implies (#[trigger] s[i]) as int - '0' as int == n as int
        / pow(10, (s.len() - 1 - i) as nat) % 10 by {
        if i < k {
            lemma_zero_place(n as int, 10, digits.len(), (s.len() - 1 - i) as nat);
        } else {
            assert(s[i] == digits[i - k]);
        }
    }
    if s.len() > width {
        assert(s =~= digits);
    }
}

/// A number in hexadecimal has at each place the digit of that place, `0` to `9`
/// and then `a` to `f`.
pub proof fn law_hex_has_the_digits(n: nat, width: nat)
    ensures
        hex(n, width).len() == width,
        forall|i: int|
            0 <= i < width ==> (#[trigger] hex(n, width)[i]) as int == ({
                let d = n as int / pow(16, (width - 1 - i) as nat) % 16;
                if d < 10 {
                    '0' as int + d
                } else {
                    'a' as int + d - 10
                }
            }),
    decreases width,
{
    if width > 0 {
        let rest = hex(n / 16, (width - 1) as nat);
        law_hex_has_the_digits(n / 16, (width - 1) as nat);
        assert forall|i: int| 0 <= i < width implies (#[trigger] hex(n, width)[i]) as int == ({
            let d = n as int / pow(16, (width - 1 - i) as nat) % 16;
            if d < 10 {
                '0' as int + d
            } else {
                'a' as int + d - 10
            }
        }) by {
            if i < width - 1 {
                lemma_next_place(n as int, 16, (width - 2 - i) as nat);
                assert(hex(n, width)[i] == rest[i]);
            } else {
                lemma_next_place(n as int, 16, 0);
                reveal_strlit("0123456789abcdef");
            }
        }
    }
}

/// The characters that are read as the number `n` are those digits that write it
/// down, with or without a plus sign in front, and no others.
pub proof fn law_parsed_is_written_down(s: Seq<char>, n: u64)
    ensures
        parse_u64_spec(s) == Some(n) <==> writes_down(s, n as int) || s.len() > 0 && s[0] == '+'
            && writes_down(s.skip(1), n as int),
{
    let digits = after_plus(s);
    lemma_value_writes_down(digits, n as int);
    if s.len() > 0 && s[0] == '+' && writes_down(s, n as int) {
        assert(s[0] as int - '0' as int >= 0);
    }
}

proof fn lemma_value_writes_down(s: Seq<char>, n: int)
    ensures
        writes_down(s, n) <==> s.len() > 0 && all_decimal_digits(s) && decimal_value(s) == n,
    decreases s.len(),
{
    if s.len() == 1 {
        lemma_writes_down_digit(s, n);
        reveal_with_fuel(decimal_value, 2);
        assert(s.drop_last() =~= Seq::empty());
        if is_decimal_digit(s[0]) {
            assert(all_decimal_digits(s));
        }
    } else if s.len() > 1 && n >= 0 {
        let rest = s.drop_last();
        lemma_value_writes_down(rest, n / 10);
        lemma_writes_down(s, n);
        if writes_down(s, n) {
            assert forall|i: int| 0 <= i < s.len() implies is_decimal_digit(s[i]) by {
                if i < rest.len() {
                    assert(rest[i] == s[i]);
                    assert(is_decimal_digit(rest[i]));
                }
            }
        }
        if all_decimal_digits(s) {
            assert forall|i: int| 0 <= i < rest.len() implies is_decimal_digit(rest[i]) by {
                assert(rest[i] == s[i]);
            }
            assert(is_decimal_digit(s[s.len() - 1]));
        }
    }
}

fn push_digit(out: &mut String, d: usize)
    requires
        d < 16,
    ensures
        final(out)@ == old(out)@.push(digit(d as int)),
{
    proof {
        reveal_strlit("0123456789abcdef");
    }
    out.append("0123456789abcdef".substring_char(d, d + 1));
    proof {
        assert(out@ =~= old(out)@.push(digit(d as int)));
    }
}

/// Appends `n` in decimal to `out`.
pub fn push_decimal(out: &mut String, n: u64)
    ensures
        final(out)@ == old(out)@ + decimal(n as nat),
    decreases n,
{
    let ghost before = out@;
    if n < 10 {
        push_digit(out, n as usize);
    } else {
        push_decimal(out, n / 10);
        push_digit(out, (n % 10) as usize);
    }
    proof {
        assert(out@ =~= before + decimal(n as nat));
    }
}

/// Appends `n` in decimal to `out`, with leading zeros up to `width` digits.
pub fn push_decimal_padded(out: &mut String, n: u64, width: usize)
    ensures
        final(out)@ == old(out)@ + decimal_padded(n as nat, width as nat),
{
    let mut text = String::new();
    push_decimal(&mut text, n);
    proof {
        assert(text@ =~= decimal(n as nat));
        reveal_strlit("0");
    }
    let len = text.as_str().unicode_len();
    let ghost before = out@;
    let mut filled: usize = len;
    while filled < width
        invariant
            len == decimal(n as nat).len(),
            len <= filled,
            filled <= width || filled == len,
            out@ == before + zeros(filled - len),
            "0"@ == seq!['0'],
        decreases width - filled,
    {
        out.append("0");
        filled = filled + 1;
        proof {
            assert(out@ =~= before + zeros(filled - len));
        }
    }
    out.append(text.as_str());
    proof {
        assert(out@ =~= before + decimal_padded(n as nat, width as nat));
    }
}

/// Appends the `width` lowest hexadecimal digits of `n` to `out`.
pub fn push_hex(out: &mut String, n: u32, width: usize)
    ensures
        final(out)@ == old(out)@ + hex(n as nat, width as nat),
    decreases width,
{
    let ghost before = out@;
    if width > 0 {
        push_hex(out, n / 16, width - 1);
        push_digit(out, (n % 16) as usize);
    }
    proof {
        assert(out@ =~= before + hex(n as nat, width as nat));
    }
}

/// The number that the characters of `s` from `from` on write down, if they
/// write down one below 2^64: decimal digits, with or without a leading plus
/// sign.
pub fn parse_u64(s: &Vec<char>, from: usize) -> (n: Option<u64>)
    requires
        from <= s@.len(),
    ensures
        n == parse_u64_spec(s@.skip(from as int)),
{
    let ghost rest = s@.skip(from as int);
    let mut start: usize = from;
    if from < s.len() && s[from] == '+' {
        start = from + 1;
    }
    let ghost digits = s@.skip(start as int);
    proof {
        assert(digits =~= after_plus(rest));
    }
    if start == s.len() {
        return None;
    }
    let mut value: u64 = 0;
    let mut i: usize = start;
    proof {
        assert(digits.take(0).len() == 0);
    }
    while i < s.len()
        invariant
            start <= i <= s@.len(),
            digits == s@.skip(start as int),
            digits.len() > 0,
            rest == s@.skip(from as int),
            digits == after_plus(rest),
            forall|j: int| 0 <= j < i - start ==> is_decimal_digit(digits[j]),
            value == decimal_value(digits.take(i - start)),
        decreases s@.len() - i,
    {
        let c = s[i];
        let ghost k = i - start;
        proof {
            assert(digits[k] == c);
        }
        if c < '0' || c > '9' {
            return None;
        }
        let d: u64 = c as u64 - '0' as u64;
        proof {
            assert(digits.take(k + 1).drop_last() =~= digits.take(k));
            assert(decimal_value(digits.take(k + 1)) == 10 * value + d);
            lemma_prefix_value(digits, k + 1);
        }
        if value > (u64::MAX - d) / 10 {
            return None;
        }
        value = 10 * value + d;
        i = i + 1;
    }
    proof {
        assert(digits.take(s@.len() - start) =~= digits);
    }
    Some(value)
}

proof fn lemma_prefix_value(s: Seq<char>, n: int)
    requires
        0 <= n <= s.len(),
    ensures
        decimal_value(s.take(n)) <= decimal_value(s),
    decreases s.len() - n,
{
    if n < s.len() {
        lemma_prefix_value(s, n + 1);
        assert(s.take(n + 1).drop_last() =~= s.take(n));
    } else {
        assert(s.take(n) =~= s);
    }
}

} // verus!
