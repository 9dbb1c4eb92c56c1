//! Big-endian integer fields for serialized keys.  Keys use big-endian so
//! that byte-wise ordered scans return entries in numeric order; the byte
//! layout is part of the on-disk contract shared by peers.

use vstd::prelude::*;

verus! {

/// Key prefix under which Raft log entries live, a range disjoint from the
/// per-collection change-log keys in the same column family.
pub const INTERNAL_KEY_PREFIX: u8 = 255;

/// The eight bytes of `v`, most significant first.
pub open spec fn spec_be_u64(v: u64) -> Seq<u8> {
    seq![
        ((v / 0x100_0000_0000_0000) % 0x100) as u8,
        ((v / 0x1_0000_0000_0000) % 0x100) as u8,
        ((v / 0x100_0000_0000) % 0x100) as u8,
        ((v / 0x1_0000_0000) % 0x100) as u8,
        ((v / 0x100_0000) % 0x100) as u8,
        ((v / 0x1_0000) % 0x100) as u8,
        ((v / 0x100) % 0x100) as u8,
        (v % 0x100) as u8,
    ]
}

/// The value read back from eight big-endian bytes at position `i`.
pub open spec fn spec_be_u64_read(bytes: Seq<u8>, i: int) -> int {
    bytes[i] * 0x100_0000_0000_0000 + bytes[i + 1] * 0x1_0000_0000_0000 + bytes[i + 2]
        * 0x100_0000_0000 + bytes[i + 3] * 0x1_0000_0000 + bytes[i + 4] * 0x100_0000 + bytes[i + 5]
        * 0x1_0000 + bytes[i + 6] * 0x100 + bytes[i + 7]
}

/// Reading the eight bytes of `v` gives `v` back.
pub proof fn lemma_be_u64_round_trip(v: u64)
    ensures
        spec_be_u64_read(spec_be_u64(v), 0) == v,
{
    vstd::arithmetic::div_mod::lemma_fundamental_div_mod(v as int, 0x100);
    vstd::arithmetic::div_mod::lemma_fundamental_div_mod(v as int / 0x100, 0x100);
    vstd::arithmetic::div_mod::lemma_fundamental_div_mod(v as int / 0x1_0000, 0x100);
    vstd::arithmetic::div_mod::lemma_fundamental_div_mod(v as int / 0x100_0000, 0x100);
    vstd::arithmetic::div_mod::lemma_fundamental_div_mod(v as int / 0x1_0000_0000, 0x100);
    vstd::arithmetic::div_mod::lemma_fundamental_div_mod(v as int / 0x100_0000_0000, 0x100);
    vstd::arithmetic::div_mod::lemma_fundamental_div_mod(v as int / 0x1_0000_0000_0000, 0x100);
    assert(v as int / 0x100 / 0x100 == v as int / 0x1_0000) by {
        vstd::arithmetic::div_mod::lemma_div_denominator(v as int, 0x100, 0x100);
    }
    assert(v as int / 0x1_0000 / 0x100 == v as int / 0x100_0000) by {
        vstd::arithmetic::div_mod::lemma_div_denominator(v as int, 0x1_0000, 0x100);
    }
    assert(v as int / 0x100_0000 / 0x100 == v as int / 0x1_0000_0000) by {
        vstd::arithmetic::div_mod::lemma_div_denominator(v as int, 0x100_0000, 0x100);
    }
    assert(v as int / 0x1_0000_0000 / 0x100 == v as int / 0x100_0000_0000) by {
        vstd::arithmetic::div_mod::lemma_div_denominator(v as int, 0x1_0000_0000, 0x100);
    }
    assert(v as int / 0x100_0000_0000 / 0x100 == v as int / 0x1_0000_0000_0000) by {
        vstd::arithmetic::div_mod::lemma_div_denominator(v as int, 0x100_0000_0000, 0x100);
    }
    assert(v as int / 0x1_0000_0000_0000 / 0x100 == v as int / 0x100_0000_0000_0000) by {
        vstd::arithmetic::div_mod::lemma_div_denominator(v as int, 0x1_0000_0000_0000, 0x100);
    }
    assert(v as int / 0x100_0000_0000_0000 < 0x100) by {
        assert(v as int / 0x100_0000_0000_0000 <= 0xFFFF_FFFF_FFFF_FFFFint / 0x100_0000_0000_0000)
            by {
            vstd::arithmetic::div_mod::lemma_div_is_ordered(
                v as int,
                0xFFFF_FFFF_FFFF_FFFFint,
                0x100_0000_0000_0000,
            );
        }
    }
    vstd::arithmetic::div_mod::lemma_small_mod(
        (v as int / 0x100_0000_0000_0000) as nat,
        0x100,
    );
}

/// Append the eight big-endian bytes of `v` to `out`.
pub fn write_be_u64(out: &mut Vec<u8>, v: u64)
    ensures
        final(out)@ == old(out)@ + spec_be_u64(v),
{
    out.push(((v / 0x100_0000_0000_0000) % 0x100) as u8);
    out.push(((v / 0x1_0000_0000_0000) % 0x100) as u8);
    out.push(((v / 0x100_0000_0000) % 0x100) as u8);
    out.push(((v / 0x1_0000_0000) % 0x100) as u8);
    out.push(((v / 0x100_0000) % 0x100) as u8);
    out.push(((v / 0x1_0000) % 0x100) as u8);
    out.push(((v / 0x100) % 0x100) as u8);
    out.push((v % 0x100) as u8);
    assert(out@ =~= old(out)@ + spec_be_u64(v));
}

/// Read eight big-endian bytes at position `i`, which must be in range.
pub fn read_be_u64(bytes: &[u8], i: usize) -> (r: u64)
    requires
        i + 8 <= bytes@.len(),
    ensures
        r == spec_be_u64_read(bytes@, i as int),
{
    (bytes[i] as u64) * 0x100_0000_0000_0000 + (bytes[i + 1] as u64) * 0x1_0000_0000_0000 + (
    bytes[i + 2] as u64) * 0x100_0000_0000 + (bytes[i + 3] as u64) * 0x1_0000_0000 + (bytes[i
        + 4] as u64) * 0x100_0000 + (bytes[i + 5] as u64) * 0x1_0000 + (bytes[i + 6] as u64) * 0x100
        + (bytes[i + 7] as u64)
}

} // verus!
