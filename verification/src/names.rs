//! Segment file names: the 16-hex-digit, zero-padded lowercase encoding of
//! a segment's 64-bit name.

use vstd::prelude::*;

verus! {

/// The character for one hex digit.
pub open spec fn hex_char(d: u64) -> char
    recommends
        d < 16,
{
    if d == 0 {
        '0'
    } else if d == 1 {
        '1'
    } else if d == 2 {
        '2'
    } else if d == 3 {
        '3'
    } else if d == 4 {
        '4'
    } else if d == 5 {
        '5'
    } else if d == 6 {
        '6'
    } else if d == 7 {
        '7'
    } else if d == 8 {
        '8'
    } else if d == 9 {
        '9'
    } else if d == 10 {
        'a'
    } else if d == 11 {
        'b'
    } else if d == 12 {
        'c'
    } else if d == 13 {
        'd'
    } else if d == 14 {
        'e'
    } else {
        'f'
    }
}

/// The 16 hex digits of `n`, most significant first.
pub open spec fn hex_name(n: u64) -> Seq<char> {
    Seq::new(16, |i: int| hex_char((n >> (((15 - i) * 4) as u64)) & 0xf))
}

/// Relies on `String::from_utf8`: UTF-8 encodes ASCII bytes as themselves,
/// so a string built from ASCII bytes holds one character per byte.
#[verifier::external_body]
fn ascii_to_string(bytes: Vec<u8>) -> (r: String)
    requires
        forall|i: int| 0 <= i < bytes@.len() ==> bytes@[i] < 128,
    ensures
        r@.len() == bytes@.len(),
        forall|i: int| 0 <= i < bytes@.len() ==> r@[i] == bytes@[i] as char,
{
    String::from_utf8(bytes).unwrap_or_default()
}

/// The ASCII byte of one hex digit.
fn hex_digit(d: u64) -> (c: u8)
    requires
        d < 16,
    ensures
        c < 128,
        c as char == hex_char(d),
{
    if d < 10 {
        (d as u8) + 48
    } else {
        (d as u8) - 10 + 97
    }
}

/// The file name a segment named `name` is stored under.
pub fn parse_file_name(name: u64) -> (r: String)
    ensures
        r@ == hex_name(name),
{
    let mut bytes: Vec<u8> = Vec::new();
    let mut i: usize = 0;
    while i < 16
        invariant
            i <= 16,
            bytes@.len() == i,
            forall|j: int| 0 <= j < i ==> (#[trigger] bytes@[j]) < 128,
            forall|j: int| 0 <= j < i ==> (#[trigger] bytes@[j]) as char == hex_name(name)[j],
        decreases 16 - i,
    {
        let shift: u64 = ((15 - i) as u64) * 4;
        let d = (name >> shift) & 0xf;
        proof {
            assert((name >> shift) & 0xf < 16) by (bit_vector);
            assert(shift == ((15 - i as int) * 4) as u64);
            assert(hex_name(name)[i as int] == hex_char((name >> (((15 - i as int) * 4) as u64))
                & 0xf));
        }
        bytes.push(hex_digit(d));
        i = i + 1;
    }
    let r = ascii_to_string(bytes);
    proof {
        assert(r@ =~= hex_name(name));
    }
    r
}

/// Reads a successor name from its on-disk form: zero means no successor.
pub fn parse_next_segment_name(next_segment_name: u64) -> (r: Option<String>)
    ensures
        match r {
            None => next_segment_name == 0,
            Some(s) => next_segment_name != 0 && s@ == hex_name(next_segment_name),
        },
{
    if next_segment_name == 0 {
        None
    } else {
        Some(parse_file_name(next_segment_name))
    }
}

} // verus!
