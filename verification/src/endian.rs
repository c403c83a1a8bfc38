//! Big-endian encodings of the fixed-width integers that appear on disk:
//! `u32` for record checksums and sizes, `u64` for segment names.

use vstd::prelude::*;

verus! {

/// The four bytes of `x`, most significant first.
pub open spec fn spec_u32_to_be_bytes(x: u32) -> Seq<u8> {
    seq![
        ((x >> 24) & 0xff) as u8,
        ((x >> 16) & 0xff) as u8,
        ((x >> 8) & 0xff) as u8,
        (x & 0xff) as u8,
    ]
}

/// The `u32` read from four bytes, most significant first.
pub open spec fn spec_u32_from_be_bytes(s: Seq<u8>) -> u32
    recommends
        s.len() == 4,
{
    (((s[0] as u32) << 24) | ((s[1] as u32) << 16) | ((s[2] as u32) << 8) | (s[3] as u32)) as u32
}

/// The eight bytes of `x`, most significant first.
pub open spec fn spec_u64_to_be_bytes(x: u64) -> Seq<u8> {
    seq![
        ((x >> 56) & 0xff) as u8,
        ((x >> 48) & 0xff) as u8,
        ((x >> 40) & 0xff) as u8,
        ((x >> 32) & 0xff) as u8,
        ((x >> 24) & 0xff) as u8,
        ((x >> 16) & 0xff) as u8,
        ((x >> 8) & 0xff) as u8,
        (x & 0xff) as u8,
    ]
}

/// The `u64` read from eight bytes, most significant first.
pub open spec fn spec_u64_from_be_bytes(s: Seq<u8>) -> u64
    recommends
        s.len() == 8,
{
    (((s[0] as u64) << 56) | ((s[1] as u64) << 48) | ((s[2] as u64) << 40) | ((s[3] as u64) << 32)
        | ((s[4] as u64) << 24) | ((s[5] as u64) << 16) | ((s[6] as u64) << 8) | (s[7] as u64)) as u64
}

pub proof fn lemma_u32_be_round_trip(x: u32)
    ensures
        spec_u32_to_be_bytes(x).len() == 4,
        spec_u32_from_be_bytes(spec_u32_to_be_bytes(x)) == x,
{
    assert((((((x >> 24) & 0xff) as u8) as u32) << 24 | ((((x >> 16) & 0xff) as u8) as u32) << 16
        | ((((x >> 8) & 0xff) as u8) as u32) << 8 | (((x & 0xff) as u8) as u32)) as u32 == x)
        by (bit_vector);
}

pub proof fn lemma_u32_be_bytes_injective(s: Seq<u8>)
    requires
        s.len() == 4,
    ensures
        spec_u32_to_be_bytes(spec_u32_from_be_bytes(s)) == s,
{
    let x = spec_u32_from_be_bytes(s);
    let b0 = s[0];
    let b1 = s[1];
    let b2 = s[2];
    let b3 = s[3];
    assert({
        let y = (((b0 as u32) << 24) | ((b1 as u32) << 16) | ((b2 as u32) << 8) | (b3
            as u32)) as u32;
        ((y >> 24) & 0xff) as u8 == b0 && ((y >> 16) & 0xff) as u8 == b1 && ((y >> 8)
            & 0xff) as u8 == b2 && (y & 0xff) as u8 == b3
    }) by (bit_vector);
    assert(spec_u32_to_be_bytes(x) =~= s);
}

pub proof fn lemma_u64_be_round_trip(x: u64)
    ensures
        spec_u64_to_be_bytes(x).len() == 8,
        spec_u64_from_be_bytes(spec_u64_to_be_bytes(x)) == x,
{
    assert((((((x >> 56) & 0xff) as u8) as u64) << 56 | ((((x >> 48) & 0xff) as u8) as u64) << 48
        | ((((x >> 40) & 0xff) as u8) as u64) << 40 | ((((x >> 32) & 0xff) as u8) as u64) << 32
        | ((((x >> 24) & 0xff) as u8) as u64) << 24 | ((((x >> 16) & 0xff) as u8) as u64) << 16
        | ((((x >> 8) & 0xff) as u8) as u64) << 8 | (((x & 0xff) as u8) as u64)) as u64 == x)
        by (bit_vector);
}

pub proof fn lemma_u64_be_bytes_injective(s: Seq<u8>)
    requires
        s.len() == 8,
    ensures
        spec_u64_to_be_bytes(spec_u64_from_be_bytes(s)) == s,
{
    let x = spec_u64_from_be_bytes(s);
    let b0 = s[0];
    let b1 = s[1];
    let b2 = s[2];
    let b3 = s[3];
    let b4 = s[4];
    let b5 = s[5];
    let b6 = s[6];
    let b7 = s[7];
    assert({
        let y = (((b0 as u64) << 56) | ((b1 as u64) << 48) | ((b2 as u64) << 40) | ((b3
            as u64) << 32) | ((b4 as u64) << 24) | ((b5 as u64) << 16) | ((b6 as u64) << 8) | (b7
            as u64)) as u64;
        ((y >> 56) & 0xff) as u8 == b0 && ((y >> 48) & 0xff) as u8 == b1 && ((y >> 40)
            & 0xff) as u8 == b2 && ((y >> 32) & 0xff) as u8 == b3 && ((y >> 24) & 0xff) as u8 == b4
            && ((y >> 16) & 0xff) as u8 == b5 && ((y >> 8) & 0xff) as u8 == b6 && (y
            & 0xff) as u8 == b7
    }) by (bit_vector);
    assert(spec_u64_to_be_bytes(x) =~= s);
}

/// Appends the big-endian encoding of `x` to `data`.
pub fn append_u32_be(data: &mut Vec<u8>, x: u32)
    ensures
        final(data)@ == old(data)@ + spec_u32_to_be_bytes(x),
{
    data.push(((x >> 24) & 0xff) as u8);
    data.push(((x >> 16) & 0xff) as u8);
    data.push(((x >> 8) & 0xff) as u8);
    data.push((x & 0xff) as u8);
    proof {
        assert(data@ =~= old(data)@ + spec_u32_to_be_bytes(x));
    }
}

/// Appends the big-endian encoding of `x` to `data`.
pub fn append_u64_be(data: &mut Vec<u8>, x: u64)
    ensures
        final(data)@ == old(data)@ + spec_u64_to_be_bytes(x),
{
    data.push(((x >> 56) & 0xff) as u8);
    data.push(((x >> 48) & 0xff) as u8);
    data.push(((x >> 40) & 0xff) as u8);
    data.push(((x >> 32) & 0xff) as u8);
    data.push(((x >> 24) & 0xff) as u8);
    data.push(((x >> 16) & 0xff) as u8);
    data.push(((x >> 8) & 0xff) as u8);
    data.push((x & 0xff) as u8);
    proof {
        assert(data@ =~= old(data)@ + spec_u64_to_be_bytes(x));
    }
}

/// Reads the big-endian `u32` stored at `pos`.
pub fn read_u32_be(data: &Vec<u8>, pos: usize) -> (x: u32)
    requires
        pos + 4 <= data@.len(),
    ensures
        x == spec_u32_from_be_bytes(data@.subrange(pos as int, pos as int + 4)),
{
    let n = data.len();
    let b0 = data[pos];
    let b1 = data[pos + 1];
    let b2 = data[pos + 2];
    let b3 = data[pos + 3];
    proof {
        let s = data@.subrange(pos as int, pos as int + 4);
        assert(s[0] == b0 && s[1] == b1 && s[2] == b2 && s[3] == b3);
    }
    ((b0 as u32) << 24) | ((b1 as u32) << 16) | ((b2 as u32) << 8) | (b3 as u32)
}

/// Reads the big-endian `u64` stored at `pos`.
pub fn read_u64_be(data: &Vec<u8>, pos: usize) -> (x: u64)
    requires
        pos + 8 <= data@.len(),
    ensures
        x == spec_u64_from_be_bytes(data@.subrange(pos as int, pos as int + 8)),
{
    let n = data.len();
    let b0 = data[pos];
    let b1 = data[pos + 1];
    let b2 = data[pos + 2];
    let b3 = data[pos + 3];
    let b4 = data[pos + 4];
    let b5 = data[pos + 5];
    let b6 = data[pos + 6];
    let b7 = data[pos + 7];
    proof {
        let s = data@.subrange(pos as int, pos as int + 8);
        assert(s[0] == b0 && s[1] == b1 && s[2] == b2 && s[3] == b3 && s[4] == b4 && s[5] == b5
            && s[6] == b6 && s[7] == b7);
    }
    ((b0 as u64) << 56) | ((b1 as u64) << 48) | ((b2 as u64) << 40) | ((b3 as u64) << 32) | ((b4
        as u64) << 24) | ((b5 as u64) << 16) | ((b6 as u64) << 8) | (b7 as u64)
}

} // verus!
