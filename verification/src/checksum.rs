//! What the checksum of a record tells.
use crate::outside::{crc32, crc32_bits, crc32_remainder};
use vstd::prelude::*;

verus! {

/// Different numbers stay different.
proof fn lemma_bits_differ(x: u32, y: u32, n: nat)
    requires
        x != y,
    ensures
        crc32_bits(x, n) != crc32_bits(y, n),
    decreases n,
{
    if n > 0 {
        lemma_bits_differ(x, y, (n - 1) as nat);
        let a = crc32_bits(x, (n - 1) as nat);
        let b = crc32_bits(y, (n - 1) as nat);
        assert(a != b ==> (if a & 1 == 1 {
            (a >> 1) ^ 0xEDB8_8320u32
        } else {
            a >> 1
        }) != (if b & 1 == 1 {
            (b >> 1) ^ 0xEDB8_8320u32
        } else {
            b >> 1
        })) by (bit_vector);
    }
}

/// The remainders of byte strings that differ in one byte differ.
proof fn lemma_remainders_differ(a: Seq<u8>, b: Seq<u8>, i: int)
    requires
        a.len() == b.len(),
        0 <= i < a.len(),
        a[i] != b[i],
        forall|j: int| 0 <= j < a.len() && j != i ==> a[j] == b[j],
    ensures
        crc32_remainder(a) != crc32_remainder(b),
    decreases a.len(),
{
    let x = crc32_remainder(a.drop_last());
    let y = crc32_remainder(b.drop_last());
    let p = a.last();
    let q = b.last();
    if i == a.len() - 1 {
        assert(a.drop_last() =~= b.drop_last());
        assert(x ^ (p as u32) != x ^ (q as u32)) by (bit_vector)
            requires
                p != q,
        ;
    } else {
        lemma_remainders_differ(a.drop_last(), b.drop_last(), i);
        assert(x ^ (p as u32) != y ^ (p as u32)) by (bit_vector)
            requires
                x != y,
        ;
    }
    lemma_bits_differ(x ^ (p as u32), y ^ (q as u32), 8);
}

/// Byte strings of one length that differ in one byte have different
/// checksums.
pub proof fn law_crc32_tells_one_byte(a: Seq<u8>, b: Seq<u8>, i: int)
    requires
        a.len() == b.len(),
        0 <= i < a.len(),
        a[i] != b[i],
        forall|j: int| 0 <= j < a.len() && j != i ==> a[j] == b[j],
    ensures
        crc32(a) != crc32(b),
{
    lemma_remainders_differ(a, b, i);
    let x = crc32_remainder(a);
    let y = crc32_remainder(b);
    assert(x ^ 0xFFFF_FFFF != y ^ 0xFFFF_FFFF) by (bit_vector)
        requires
            x != y,
    ;
}

} // verus!
