//! Byte-level wire helpers: big-endian integer keys and the Bitcoin
//! compact varint.
//!
//! Multi-byte integers inside index keys are big-endian so that the
//! lexicographic order of keys follows the numeric order of the integers.

use vstd::prelude::*;
use vstd::bytes::*;

verus! {

/// Big-endian bytes of a `u32`.
pub open spec fn spec_u32_to_be_bytes(x: u32) -> Seq<u8> {
    seq![
        ((x >> 24) & 0xff) as u8,
        ((x >> 16) & 0xff) as u8,
        ((x >> 8) & 0xff) as u8,
        (x & 0xff) as u8,
    ]
}

/// Big-endian bytes of a `u64`.
pub open spec fn spec_u64_to_be_bytes(x: u64) -> Seq<u8> {
    seq![
        ((x >> 56) & 0xff) as u8,
        ((x >> 48) & 0xff) as u8,
        ((x >> 40) & 0xff) as u8,
        ((x >> 32) & 0xff) as u8,
        ((x >> 24) & 0xff) as u8,
        ((x >> 16) & 0xff) as u8,
        ((x >> 8) & 0xff) as u8,
        (x & 0xff) as u8,
    ]
}

/// Distinct `u32` values have distinct big-endian encodings.
pub proof fn lemma_u32_be_injective(a: u32, b: u32)
    requires
        spec_u32_to_be_bytes(a) == spec_u32_to_be_bytes(b),
    ensures
        a == b,
{
    assert(spec_u32_to_be_bytes(a)[0] == spec_u32_to_be_bytes(b)[0]);
    assert(spec_u32_to_be_bytes(a)[1] == spec_u32_to_be_bytes(b)[1]);
    assert(spec_u32_to_be_bytes(a)[2] == spec_u32_to_be_bytes(b)[2]);
    assert(spec_u32_to_be_bytes(a)[3] == spec_u32_to_be_bytes(b)[3]);
    assert(((a >> 24) & 0xff) as u8 == ((b >> 24) & 0xff) as u8
        && ((a >> 16) & 0xff) as u8 == ((b >> 16) & 0xff) as u8
        && ((a >> 8) & 0xff) as u8 == ((b >> 8) & 0xff) as u8
        && (a & 0xff) as u8 == (b & 0xff) as u8 ==> a == b) by (bit_vector);
}

/// Big-endian encoding of a `u32`, used in `tx_by_block` keys.
pub fn u32_to_be_vec(x: u32) -> (s: Vec<u8>)
    ensures
        s@ == spec_u32_to_be_bytes(x),
{
    let mut s: Vec<u8> = Vec::new();
    s.push(((x >> 24) & 0xff) as u8);
    s.push(((x >> 16) & 0xff) as u8);
    s.push(((x >> 8) & 0xff) as u8);
    s.push((x & 0xff) as u8);
    proof {
        assert(s@ =~= spec_u32_to_be_bytes(x));
    }
    s
}

/// Big-endian encoding of a `u64`, used in `value_index` bucket keys.
pub fn u64_to_be_vec(x: u64) -> (s: Vec<u8>)
    ensures
        s@ == spec_u64_to_be_bytes(x),
{
    let mut s: Vec<u8> = Vec::new();
    s.push(((x >> 56) & 0xff) as u8);
    s.push(((x >> 48) & 0xff) as u8);
    s.push(((x >> 40) & 0xff) as u8);
    s.push(((x >> 32) & 0xff) as u8);
    s.push(((x >> 24) & 0xff) as u8);
    s.push(((x >> 16) & 0xff) as u8);
    s.push(((x >> 8) & 0xff) as u8);
    s.push((x & 0xff) as u8);
    proof {
        assert(s@ =~= spec_u64_to_be_bytes(x));
    }
    s
}

/// Bitcoin compact varint encoding of `v`.
pub open spec fn spec_varint(v: u64) -> Seq<u8> {
    if v < 0xfd {
        seq![v as u8]
    } else if v <= 0xffff {
        seq![0xfdu8] + spec_u16_to_le_bytes(v as u16)
    } else if v <= 0xffff_ffff {
        seq![0xfeu8] + spec_u32_to_le_bytes(v as u32)
    } else {
        seq![0xffu8] + spec_u64_to_le_bytes(v)
    }
}

/// Number of bytes `spec_varint(v)` takes.
pub open spec fn spec_varint_len(v: u64) -> int {
    if v < 0xfd {
        1
    } else if v <= 0xffff {
        3
    } else if v <= 0xffff_ffff {
        5
    } else {
        9
    }
}

pub proof fn lemma_varint_len(v: u64)
    ensures
        spec_varint(v).len() == spec_varint_len(v),
{
    lemma_auto_spec_u16_to_from_le_bytes();
    lemma_auto_spec_u32_to_from_le_bytes();
    lemma_auto_spec_u64_to_from_le_bytes();
}

/// Result of parsing a varint from the front of `s`: the value and how many
/// bytes it took, or `None` if `s` is too short.
pub open spec fn spec_parse_varint(s: Seq<u8>) -> Option<(u64, int)> {
    if s.len() < 1 {
        None
    } else if s[0] < 0xfd {
        Some((s[0] as u64, 1))
    } else if s[0] == 0xfd {
        if s.len() >= 3 {
            Some((spec_u16_from_le_bytes(s.subrange(1, 3)) as u64, 3))
        } else {
            None
        }
    } else if s[0] == 0xfe {
        if s.len() >= 5 {
            Some((spec_u32_from_le_bytes(s.subrange(1, 5)) as u64, 5))
        } else {
            None
        }
    } else {
        if s.len() >= 9 {
            Some((spec_u64_from_le_bytes(s.subrange(1, 9)), 9))
        } else {
            None
        }
    }
}

/// Parsing undoes encoding, whatever bytes follow the encoded varint.
pub proof fn lemma_varint_round_trip(v: u64, rest: Seq<u8>)
    ensures
        spec_parse_varint(spec_varint(v) + rest) == Some((v, spec_varint_len(v))),
{
    lemma_auto_spec_u16_to_from_le_bytes();
    lemma_auto_spec_u32_to_from_le_bytes();
    lemma_auto_spec_u64_to_from_le_bytes();
    let s = spec_varint(v) + rest;
    if v < 0xfd {
        assert(s[0] == v as u8);
        assert(((v as u8) < 0xfd) && ((v as u8) as u64 == v)) by (bit_vector)
            requires
                v < 0xfd,
        ;
    } else if v <= 0xffff {
        assert(s[0] == 0xfdu8);
        assert(s.subrange(1, 3) =~= spec_u16_to_le_bytes(v as u16));
        assert((v as u16) as u64 == v) by (bit_vector)
            requires
                v <= 0xffff,
        ;
    } else if v <= 0xffff_ffff {
        assert(s[0] == 0xfeu8);
        assert(s.subrange(1, 5) =~= spec_u32_to_le_bytes(v as u32));
        assert((v as u32) as u64 == v) by (bit_vector)
            requires
                v <= 0xffff_ffff,
        ;
    } else {
        assert(s[0] == 0xffu8);
        assert(s.subrange(1, 9) =~= spec_u64_to_le_bytes(v));
    }
}

/// Encode `value` as a Bitcoin compact varint.
pub fn encode_varint(value: u64) -> (s: Vec<u8>)
    ensures
        s@ == spec_varint(value),
        s@.len() == spec_varint_len(value),
{
    proof {
        lemma_varint_len(value);
    }
    if value < 0xfd {
        let mut s: Vec<u8> = Vec::new();
        s.push(value as u8);
        proof {
            assert(s@ =~= spec_varint(value));
        }
        s
    } else if value <= 0xffff {
        let mut s: Vec<u8> = Vec::new();
        s.push(0xfd);
        let mut tail = u16_to_le_bytes(value as u16);
        s.append(&mut tail);
        proof {
            assert(s@ =~= spec_varint(value));
        }
        s
    } else if value <= 0xffff_ffff {
        let mut s: Vec<u8> = Vec::new();
        s.push(0xfe);
        let mut tail = u32_to_le_bytes(value as u32);
        s.append(&mut tail);
        proof {
            assert(s@ =~= spec_varint(value));
        }
        s
    } else {
        let mut s: Vec<u8> = Vec::new();
        s.push(0xff);
        let mut tail = u64_to_le_bytes(value);
        s.append(&mut tail);
        proof {
            assert(s@ =~= spec_varint(value));
        }
        s
    }
}

/// Parse a varint from `data` starting at `pos`; returns the value and the
/// position just past it.
pub fn decode_varint(data: &[u8], pos: usize) -> (r: Option<(u64, usize)>)
    requires
        pos <= data@.len(),
    ensures
        match r {
            Some((v, end)) => {
                &&& spec_parse_varint(data@.skip(pos as int)) == Some((v, end - pos))
                &&& pos < end <= data@.len()
            },
            None => spec_parse_varint(data@.skip(pos as int)) is None,
        },
{
    let n = data.len();
    if pos >= n {
        return None;
    }
    let b = *vstd::slice::slice_index_get(data, pos);
    assert(data@.skip(pos as int)[0] == b);
    if b < 0xfd {
        Some((b as u64, pos + 1))
    } else if b == 0xfd {
        if n - pos >= 3 {
            let sub = vstd::slice::slice_subrange(data, pos + 1, pos + 3);
            let v = u16_from_le_bytes(sub);
            proof {
                assert(sub@ =~= data@.skip(pos as int).subrange(1, 3));
            }
            Some((v as u64, pos + 3))
        } else {
            None
        }
    } else if b == 0xfe {
        if n - pos >= 5 {
            let sub = vstd::slice::slice_subrange(data, pos + 1, pos + 5);
            let v = u32_from_le_bytes(sub);
            proof {
                assert(sub@ =~= data@.skip(pos as int).subrange(1, 5));
            }
            Some((v as u64, pos + 5))
        } else {
            None
        }
    } else {
        if n - pos >= 9 {
            let sub = vstd::slice::slice_subrange(data, pos + 1, pos + 9);
            let v = u64_from_le_bytes(sub);
            proof {
                assert(sub@ =~= data@.skip(pos as int).subrange(1, 9));
            }
            Some((v, pos + 9))
        } else {
            None
        }
    }
}

} // verus!
