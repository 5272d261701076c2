//! Little-endian integers.

use crate::digits::{lemma_fewer_places, lemma_next_place};
use vstd::arithmetic::power::{lemma_pow0, pow};
use vstd::prelude::*;

verus! {

/// The `n` lowest bytes of `x`, least significant byte first.
pub open spec fn le_bytes(x: nat, n: nat) -> Seq<u8>
    decreases n,
{
    if n == 0 {
        Seq::empty()
    } else {
        seq![(x % 256) as u8] + le_bytes(x / 256, (n - 1) as nat)
    }
}

/// The number that `s` writes down, least significant byte first.
pub open spec fn le_value(s: Seq<u8>) -> nat
    decreases s.len(),
{
    if s.len() == 0 {
        0
    } else {
        s[0] as nat + 256 * le_value(s.skip(1))
    }
}

/// How many numbers `n` bytes can tell apart.
pub open spec fn pow256(n: nat) -> nat
    decreases n,
{
    if n == 0 {
        1
    } else {
        256 * pow256((n - 1) as nat)
    }
}

/// The bounds of the two field widths in use.
pub proof fn lemma_pow256()
    ensures
        pow256(4) == 0x1_0000_0000,
        pow256(8) == 0x1_0000_0000_0000_0000,
{
    reveal_with_fuel(pow256, 9);
}

/// `le_bytes` is as long as it is asked to be.
pub proof fn lemma_le_bytes_len(x: nat, n: nat)
    ensures
        le_bytes(x, n).len() == n,
    decreases n,
{
    if n > 0 {
        lemma_le_bytes_len(x / 256, (n - 1) as nat);
    }
}

/// A number that fits in `n` bytes is read back from them unchanged.
pub proof fn lemma_le_round_trip(x: nat, n: nat)
    requires
        x < pow256(n),
    ensures
        le_value(le_bytes(x, n)) == x,
    decreases n,
{
    lemma_le_bytes_len(x, n);
    if n > 0 {
        lemma_le_round_trip(x / 256, (n - 1) as nat);
        assert(le_bytes(x, n).skip(1) =~= le_bytes(x / 256, (n - 1) as nat));
    }
}

/// `n` bytes never write down a number that needs more of them.
pub proof fn lemma_le_value_bound(s: Seq<u8>)
    ensures
        le_value(s) < pow256(s.len()),
    decreases s.len(),
{
    if s.len() > 0 {
        lemma_le_value_bound(s.skip(1));
    }
}

/// Byte number `i` of the bytes of `x` is its digit to the base 256 at that place.
pub proof fn law_bytes_are_digits(x: nat, n: nat)
    ensures
        le_bytes(x, n).len() == n,
        forall|i: int|
            0 <= i < n ==> (#[trigger] le_bytes(x, n)[i]) == x as int / pow(256, i as nat) % 256,
    decreases n,
{
    if n > 0 {
        let rest = le_bytes(x / 256, (n - 1) as nat);
        law_bytes_are_digits(x / 256, (n - 1) as nat);
        assert forall|i: int| 0 <= i < n implies (#[trigger] le_bytes(x, n)[i]) == x as int / pow(
            256,
            i as nat,
        ) % 256 by {
            lemma_next_place(x as int, 256, 0);
            if i > 0 {
                lemma_next_place(x as int, 256, (i - 1) as nat);
                assert(le_bytes(x, n)[i] == rest[i - 1]);
            }
        }
    }
}

/// The number that bytes write down has them as its digits to the base 256, and
/// no others.
pub proof fn law_value_has_the_bytes_as_digits(s: Seq<u8>)
    ensures
        le_value(s) < pow(256, s.len()),
        forall|i: int|
            0 <= i < s.len() ==> (#[trigger] s[i]) == le_value(s) as int / pow(256, i as nat) % 256,
    decreases s.len(),
{
    let v = le_value(s) as int;
    if s.len() > 0 {
        let rest = s.skip(1);
        law_value_has_the_bytes_as_digits(rest);
        assert(v / 256 == le_value(rest) && v % 256 == s[0]);
        lemma_fewer_places(v, 256, rest.len());
        assert forall|i: int| 0 <= i < s.len() implies (#[trigger] s[i]) == v / pow(
            256,
            i as nat,
        ) % 256 by {
            lemma_next_place(v, 256, 0);
            if i > 0 {
                lemma_next_place(v, 256, (i - 1) as nat);
                assert(s[i] == rest[i - 1]);
            }
        }
    } else {
        lemma_pow0(256);
    }
}

/// Four bytes write down the sum of their values, each at its weight.
pub proof fn law_value_of_four_bytes(s: Seq<u8>)
    requires
        s.len() == 4,
    ensures
        le_value(s) == s[0] + 0x100 * s[1] + 0x1_0000 * s[2] + 0x100_0000 * s[3],
{
    lemma_value_from(s, 0);
    lemma_value_from(s, 1);
    lemma_value_from(s, 2);
    lemma_value_from(s, 3);
    assert(s.skip(0) =~= s);
    assert(le_value(s.skip(4)) == 0);
}

/// So do eight bytes.
pub proof fn law_value_of_eight_bytes(s: Seq<u8>)
    requires
        s.len() == 8,
    ensures
        le_value(s) == s[0] + 0x100 * s[1] + 0x1_0000 * s[2] + 0x100_0000 * s[3] + 0x1_0000_0000
            * s[4] + 0x100_0000_0000 * s[5] + 0x1_0000_0000_0000 * s[6] + 0x100_0000_0000_0000
            * s[7],
{
    lemma_value_from(s, 0);
    lemma_value_from(s, 1);
    lemma_value_from(s, 2);
    lemma_value_from(s, 3);
    lemma_value_from(s, 4);
    lemma_value_from(s, 5);
    lemma_value_from(s, 6);
    lemma_value_from(s, 7);
    assert(s.skip(0) =~= s);
    assert(le_value(s.skip(8)) == 0);
}

proof fn lemma_value_from(s: Seq<u8>, i: int)
    requires
        0 <= i < s.len(),
    ensures
        le_value(s.skip(i)) == s[i] + 256 * le_value(s.skip(i + 1)),
{
    assert(s.skip(i).skip(1) =~= s.skip(i + 1));
}

/// Appends the `n` lowest bytes of `x` to `out`.
pub fn push_le(out: &mut Vec<u8>, x: u64, n: usize)
    ensures
        final(out)@ == old(out)@ + le_bytes(x as nat, n as nat),
{
    let mut rest: u64 = x;
    let mut left: usize = n;
    while left > 0
        invariant
            out@ + le_bytes(rest as nat, left as nat) == old(out)@ + le_bytes(x as nat, n as nat),
        decreases left,
    {
        let ghost before = out@;
        out.push((rest % 256) as u8);
        proof {
            assert(before + le_bytes(rest as nat, left as nat) =~= out@ + le_bytes(
                (rest / 256) as nat,
                (left - 1) as nat,
            ));
        }
        rest = rest / 256;
        left = left - 1;
    }
    proof {
        assert(out@ + le_bytes(rest as nat, 0) =~= out@);
    }
}

/// The number that the `n` bytes of `s` from `at` on write down.
pub fn read_le(s: &[u8], at: usize, n: usize) -> (x: u64)
    requires
        n <= 8,
        at + n <= s@.len(),
    ensures
        x == le_value(s@.subrange(at as int, at + n)),
{
    let end: usize = s.len();
    let mut x: u64 = 0;
    let mut i: usize = n;
    proof {
        assert(s@.subrange(at + n, at + n).len() == 0);
    }
    while i > 0
        invariant
            n <= 8,
            i <= n,
            at + n <= end,
            end == s@.len(),
            x == le_value(s@.subrange(at + i, at + n)),
        decreases i,
    {
        i = i - 1;
        proof {
            let tail = s@.subrange(at + i + 1, at + n);
            let here = s@.subrange(at + i, at + n);
            lemma_le_value_bound(here);
            lemma_pow256();
            lemma_pow256_monotonic(here.len(), 8);
            assert(here.skip(1) =~= tail);
        }
        x = s[at + i] as u64 + 256 * x;
    }
    x
}

/// More bytes tell more numbers apart.
pub proof fn lemma_pow256_monotonic(a: nat, b: nat)
    requires
        a <= b,
    ensures
        1 <= pow256(a) <= pow256(b),
    decreases b,
{
    if b > 0 {
        if a < b {
            lemma_pow256_monotonic(a, (b - 1) as nat);
        } else {
            lemma_pow256_monotonic((a - 1) as nat, (b - 1) as nat);
        }
    }
}

} // verus!
