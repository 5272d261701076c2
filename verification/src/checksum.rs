//! The checksum that guards each body.

use vstd::prelude::*;

verus! {

/// One bit of the reflected division by the CRC-32 polynomial.
pub open spec fn crc_bit(c: u32) -> u32 {
    if c & 1 == 1 {
        (c >> 1) ^ 0xEDB8_8320
    } else {
        c >> 1
    }
}

/// `n` bits of that division.
pub open spec fn crc_bits(c: u32, n: nat) -> u32
    decreases n,
{
    if n == 0 {
        c
    } else {
        crc_bit(crc_bits(c, (n - 1) as nat))
    }
}

/// The division's register after `bytes`.
pub open spec fn crc_register(bytes: Seq<u8>) -> u32
    decreases bytes.len(),
{
    if bytes.len() == 0 {
        0xFFFF_FFFF
    } else {
        crc_bits(crc_register(bytes.drop_last()) ^ (bytes.last() as u32), 8)
    }
}

/// The CRC-32 (IEEE) checksum of `bytes`.
pub open spec fn crc32(bytes: Seq<u8>) -> u32 {
    !crc_register(bytes)
}

/// `crc32fast::hash`: the CRC-32 (IEEE) checksum of the whole slice. It is
/// taken on trust that the crate computes that checksum, whichever of its
/// implementations the processor selects.
pub assume_specification[ crc32fast::hash ](buf: &[u8]) -> (crc: u32)
    ensures
        crc == crc32(buf@),
;

proof fn lemma_crc_bits_injective(a: u32, b: u32, n: nat)
    requires
        crc_bits(a, n) == crc_bits(b, n),
    ensures
        a == b,
    decreases n,
{
    if n > 0 {
        let x = crc_bits(a, (n - 1) as nat);
        let y = crc_bits(b, (n - 1) as nat);
        assert(x == y) by (bit_vector)
            requires
                (if x & 1 == 1 {
                    (x >> 1) ^ 0xEDB8_8320u32
                } else {
                    x >> 1
                }) == (if y & 1 == 1 {
                    (y >> 1) ^ 0xEDB8_8320u32
                } else {
                    y >> 1
                }),
        ;
        lemma_crc_bits_injective(a, b, (n - 1) as nat);
    }
}

/// Whether `steps` are eight bits of the reflected division by the CRC-32
/// polynomial, from `first` to `last`: a set lowest bit is shifted out with the
/// polynomial taken off, any other is just shifted out.
pub open spec fn divides(steps: Seq<u32>, first: u32, last: u32) -> bool {
    &&& steps.len() == 9
    &&& steps[0] == first
    &&& steps[8] == last
    &&& forall|k: int, j: int|
        0 <= k < 9 && 0 <= j < 9 && j == k + 1 ==> (#[trigger] steps[j]) == if (
        #[trigger] steps[k]) & 1 == 1 {
            (steps[k] >> 1) ^ 0xEDB8_8320u32
        } else {
            steps[k] >> 1
        }
}

/// The checksum of no bytes is zero, and one more byte divides it on by eight
/// bits, with the checksum complemented before and after.
pub proof fn law_checksum_of_one_more_byte(bytes: Seq<u8>, byte: u8)
    ensures
        crc32(Seq::<u8>::empty()) == 0,
        exists|steps: Seq<u32>| #[trigger]
            divides(steps, !crc32(bytes) ^ (byte as u32), !crc32(bytes.push(byte))),
{
    let none = crc_register(Seq::<u8>::empty());
    assert(!0xFFFF_FFFFu32 == 0) by (bit_vector);
    assert(none == 0xFFFF_FFFF);
    let before = crc_register(bytes);
    let after = crc_register(bytes.push(byte));
    assert(bytes.push(byte).drop_last() =~= bytes);
    assert(!(!before) == before) by (bit_vector);
    assert(!(!after) == after) by (bit_vector);
    let first = before ^ (byte as u32);
    let steps = Seq::new(9, |k: int| crc_bits(first, k as nat));
    assert(steps[0] == first);
    assert forall|k: int, j: int| 0 <= k < 9 && 0 <= j < 9 && j == k + 1 implies (
    #[trigger] steps[j]) == if (#[trigger] steps[k]) & 1 == 1 {
        (steps[k] >> 1) ^ 0xEDB8_8320u32
    } else {
        steps[k] >> 1
    } by {
        assert(crc_bits(first, j as nat) == crc_bit(crc_bits(first, k as nat)));
    }
    assert(!crc32(bytes) == before);
    assert(!crc32(bytes.push(byte)) == after);
    assert(divides(steps, !crc32(bytes) ^ (byte as u32), !crc32(bytes.push(byte))));
}

/// Two byte strings of one length that differ in a single place have different
/// checksums.
pub proof fn law_one_changed_byte_changes_the_checksum(a: Seq<u8>, b: Seq<u8>, at: int)
    requires
        a.len() == b.len(),
        0 <= at < a.len(),
        a[at] != b[at],
        forall|i: int| 0 <= i < a.len() && i != at ==> a[i] == b[i],
    ensures
        crc32(a) != crc32(b),
{
    lemma_registers_differ(a, b, at);
    let x = crc_register(a);
    let y = crc_register(b);
    assert(x != y ==> !x != !y) by (bit_vector);
}

proof fn lemma_registers_differ(a: Seq<u8>, b: Seq<u8>, at: int)
    requires
        a.len() == b.len(),
        0 <= at < a.len(),
        a[at] != b[at],
        forall|i: int| 0 <= i < a.len() && i != at ==> a[i] == b[i],
    ensures
        crc_register(a) != crc_register(b),
    decreases a.len(),
{
    let ra = crc_register(a.drop_last());
    let rb = crc_register(b.drop_last());
    let la = a.last() as u32;
    let lb = b.last() as u32;
    if at == a.len() - 1 {
        assert(a.drop_last() =~= b.drop_last());
        assert(la != lb ==> ra ^ la != ra ^ lb) by (bit_vector);
    } else {
        lemma_registers_differ(a.drop_last(), b.drop_last(), at);
        assert(ra != rb ==> ra ^ la != rb ^ la) by (bit_vector);
    }
    if crc_register(a) == crc_register(b) {
        lemma_crc_bits_injective(ra ^ la, rb ^ lb, 8);
    }
}

} // verus!
