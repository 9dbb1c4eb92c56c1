//! LEB128 variable-length integers, used inside change-log and Raft-log
//! payloads.  Encoding and decoding are verified inverses.

use vstd::prelude::*;

verus! {

/// The LEB128 encoding of `v`: seven value bits per byte, low bits first,
/// high bit of each byte set while more bytes follow.
pub open spec fn spec_leb128(v: nat) -> Seq<u8>
    decreases v,
{
    if v < 128 {
        seq![v as u8]
    } else {
        seq![((v % 128) + 128) as u8] + spec_leb128(v / 128)
    }
}

/// What decoding reads at position `i` of `bytes`: the value and the
/// position just past it, or `None` when the bytes run out mid-number.
pub open spec fn spec_leb128_read(bytes: Seq<u8>, i: int) -> Option<(nat, int)>
    decreases bytes.len() - i,
{
    if i < 0 || i >= bytes.len() {
        Option::None
    } else if bytes[i] < 128 {
        Some((bytes[i] as nat, i + 1))
    } else {
        match spec_leb128_read(bytes, i + 1) {
            Option::None => Option::None,
            Option::Some((v, j)) => Some((((bytes[i] - 128) + v * 128) as nat, j)),
        }
    }
}

/// Appending an encoded value and decoding at its start reads it back.
pub proof fn lemma_leb128_round_trip(prefix: Seq<u8>, v: nat, suffix: Seq<u8>)
    ensures
        spec_leb128_read(prefix + spec_leb128(v) + suffix, prefix.len() as int) == Some(
            (v, prefix.len() + spec_leb128(v).len() as int),
        ),
    decreases v,
{
    let bytes = prefix + spec_leb128(v) + suffix;
    let i = prefix.len() as int;
    if v < 128 {
        assert(bytes[i] == v as u8);
    } else {
        let head = ((v % 128) + 128) as u8;
        assert(bytes[i] == head);
        assert(prefix + spec_leb128(v) + suffix =~= (prefix + seq![head]) + spec_leb128(v / 128)
            + suffix);
        lemma_leb128_round_trip(prefix + seq![head], v / 128, suffix);
        assert(spec_leb128_read(bytes, i + 1) == Some(
            (v / 128, i + 1 + spec_leb128(v / 128).len()),
        ));
        assert((head - 128) + (v / 128) * 128 == v) by {
            vstd::arithmetic::div_mod::lemma_fundamental_div_mod(v as int, 128);
        }
        assert(spec_leb128(v).len() == 1 + spec_leb128(v / 128).len());
    }
}

/// A successful read always consumes at least one byte and stays in bounds.
pub proof fn lemma_leb128_read_advances(bytes: Seq<u8>, i: int)
    ensures
        spec_leb128_read(bytes, i) matches Some((v, j)) ==> i < j <= bytes.len(),
    decreases bytes.len() - i,
{
    if 0 <= i < bytes.len() && bytes[i] >= 128 {
        lemma_leb128_read_advances(bytes, i + 1);
    }
}

/// Append the LEB128 encoding of `v` to `out`.
pub fn write_leb128(out: &mut Vec<u8>, v: u64)
    ensures
        final(out)@ == old(out)@ + spec_leb128(v as nat),
    decreases v,
{
    if v < 128 {
        out.push(v as u8);
        assert(out@ =~= old(out)@ + spec_leb128(v as nat));
    } else {
        let b = ((v % 128) + 128) as u8;
        out.push(b);
        write_leb128(out, v / 128);
        assert(out@ =~= old(out)@ + spec_leb128(v as nat));
    }
}

/// Read a LEB128 value at position `i`.  `None` reports bytes running out
/// mid-number, or a value that does not fit in 64 bits.
pub fn read_leb128(bytes: &[u8], i: usize) -> (r: Option<(u64, usize)>)
    ensures
        match r {
            Some((v, j)) => spec_leb128_read(bytes@, i as int) == Some((v as nat, j as int)) && i
                < j <= bytes@.len(),
            None => spec_leb128_read(bytes@, i as int) is None || (spec_leb128_read(
                bytes@,
                i as int,
            ) matches Some((sv, _)) && sv > u64::MAX),
        },
    decreases bytes@.len() - i,
{
    if i >= bytes.len() {
        return None;
    }
    let b = bytes[i];
    if b < 128 {
        return Some((b as u64, i + 1));
    }
    let low = (b - 128) as u64;
    match read_leb128(bytes, i + 1) {
        None => {
            proof {
                if spec_leb128_read(bytes@, i as int) is Some {
                    let (sv, _) = spec_leb128_read(bytes@, i + 1).unwrap();
                    assert(sv > u64::MAX);
                    assert(sv * 128 >= sv * 1) by (nonlinear_arith)
                        requires
                            sv >= 0,
                    ;
                }
            }
            None
        },
        Some((v, j)) => {
            let limit = (u64::MAX - low) / 128;
            if v > limit {
                proof {
                    assert(v * 128 >= (limit + 1) * 128) by (nonlinear_arith)
                        requires
                            v >= limit + 1,
                    ;
                    assert((limit + 1) * 128 > u64::MAX - low) by {
                        vstd::arithmetic::div_mod::lemma_fundamental_div_mod(
                            (u64::MAX - low) as int,
                            128,
                        );
                    }
                }
                None
            } else {
                proof {
                    assert(v * 128 <= limit * 128) by (nonlinear_arith)
                        requires
                            v <= limit,
                    ;
                    assert(limit * 128 <= u64::MAX - low) by {
                        vstd::arithmetic::div_mod::lemma_fundamental_div_mod(
                            (u64::MAX - low) as int,
                            128,
                        );
                    }
                }
                Some((low + v * 128, j))
            }
        },
    }
}

} // verus!
