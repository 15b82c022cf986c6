use vstd::prelude::*;
use vstd::bytes::*;

verus! {

// One leading tag byte identifies which value variant follows in the stream.
pub const TAG_NULL: u8 = 0;
pub const TAG_STRING: u8 = 1;
pub const TAG_INTEGER: u8 = 2;
pub const TAG_DOUBLE: u8 = 3;
pub const TAG_BOOL: u8 = 4;
pub const TAG_LIST: u8 = 10;
pub const TAG_MAP: u8 = 11;
pub const TAG_LIST_UINT8: u8 = 100;
pub const TAG_LIST_INT8: u8 = 101;
pub const TAG_LIST_UINT16: u8 = 102;
pub const TAG_LIST_INT16: u8 = 103;
pub const TAG_LIST_UINT32: u8 = 104;
pub const TAG_LIST_INT32: u8 = 105;
pub const TAG_LIST_INT64: u8 = 106;
pub const TAG_LIST_UINT64: u8 = 107;
pub const TAG_LIST_FLOAT32: u8 = 108;
pub const TAG_LIST_FLOAT64: u8 = 109;
pub const TAG_LIST_STRING: u8 = 110;

/// The maximum element count of any list, map or numeric vector, and the
/// maximum byte budget of a string vector: every length field on the wire is
/// a 4-byte unsigned integer, so counts are capped at its range.
pub const MAX_LIST_LENGTH: usize = 4294967295;

/// `MAX_LIST_LENGTH` as a mathematical integer, for use in specifications.
pub open spec fn max_len() -> int {
    MAX_LIST_LENGTH as int
}

/// The version token carried in every stream's header: the ASCII bytes of
/// "1.1.0".
pub open spec fn version_bytes() -> Seq<u8> {
    seq![0x31u8, 0x2eu8, 0x31u8, 0x2eu8, 0x30u8]
}

/// The version token as a byte vector, for the encoder.
pub fn version_vec() -> (r: Vec<u8>)
    ensures
        r@ == version_bytes(),
{
    let mut v: Vec<u8> = Vec::new();
    v.push(0x31u8);
    v.push(0x2eu8);
    v.push(0x31u8);
    v.push(0x2eu8);
    v.push(0x30u8);
    proof {
        assert(v@ =~= version_bytes());
    }
    v
}

/// Byte-wise equality of two byte slices.
pub fn bytes_eq(a: &[u8], b: &[u8]) -> (r: bool)
    ensures
        r == (a@ == b@),
{
    if a.len() != b.len() {
        proof {
            assert(a@.len() != b@.len());
        }
        return false;
    }
    let n = a.len();
    let mut i: usize = 0;
    while i < n
        invariant
            n == a@.len() == b@.len(),
            0 <= i <= n,
            forall|j: int| 0 <= j < i ==> a@[j] == b@[j],
        decreases n - i,
    {
        if a[i] != b[i] {
            return false;
        }
        i += 1;
    }
    proof {
        assert(a@ =~= b@);
    }
    true
}

// Little-endian byte images of the signed fixed-width integers, defined as
// the images of their two's-complement bit patterns.

pub open spec fn spec_i8_to_le_bytes(x: i8) -> Seq<u8> {
    seq![x as u8]
}

pub open spec fn spec_i8_from_le_bytes(s: Seq<u8>) -> i8 {
    s[0] as i8
}

pub open spec fn spec_i16_to_le_bytes(x: i16) -> Seq<u8> {
    spec_u16_to_le_bytes(x as u16)
}

pub open spec fn spec_i16_from_le_bytes(s: Seq<u8>) -> i16 {
    spec_u16_from_le_bytes(s) as i16
}

pub open spec fn spec_i32_to_le_bytes(x: i32) -> Seq<u8> {
    spec_u32_to_le_bytes(x as u32)
}

pub open spec fn spec_i32_from_le_bytes(s: Seq<u8>) -> i32 {
    spec_u32_from_le_bytes(s) as i32
}

pub open spec fn spec_i64_to_le_bytes(x: i64) -> Seq<u8> {
    spec_u64_to_le_bytes(x as u64)
}

pub open spec fn spec_i64_from_le_bytes(s: Seq<u8>) -> i64 {
    spec_u64_from_le_bytes(s) as i64
}

pub proof fn lemma_i8_le_round_trip(x: i8)
    ensures
        spec_i8_to_le_bytes(x).len() == 1,
        spec_i8_from_le_bytes(spec_i8_to_le_bytes(x)) == x,
{
    assert((x as u8) as i8 == x) by (bit_vector);
}

pub proof fn lemma_i16_le_round_trip(x: i16)
    ensures
        spec_i16_to_le_bytes(x).len() == 2,
        spec_i16_from_le_bytes(spec_i16_to_le_bytes(x)) == x,
{
    lemma_auto_spec_u16_to_from_le_bytes();
    assert(spec_u16_to_le_bytes(x as u16).len() == 2);
    assert(spec_u16_from_le_bytes(spec_u16_to_le_bytes(x as u16)) == x as u16);
    assert((x as u16) as i16 == x) by (bit_vector);
}

pub proof fn lemma_i32_le_round_trip(x: i32)
    ensures
        spec_i32_to_le_bytes(x).len() == 4,
        spec_i32_from_le_bytes(spec_i32_to_le_bytes(x)) == x,
{
    lemma_auto_spec_u32_to_from_le_bytes();
    assert(spec_u32_to_le_bytes(x as u32).len() == 4);
    assert(spec_u32_from_le_bytes(spec_u32_to_le_bytes(x as u32)) == x as u32);
    assert((x as u32) as i32 == x) by (bit_vector);
}

pub proof fn lemma_i64_le_round_trip(x: i64)
    ensures
        spec_i64_to_le_bytes(x).len() == 8,
        spec_i64_from_le_bytes(spec_i64_to_le_bytes(x)) == x,
{
    lemma_auto_spec_u64_to_from_le_bytes();
    assert(spec_u64_to_le_bytes(x as u64).len() == 8);
    assert(spec_u64_from_le_bytes(spec_u64_to_le_bytes(x as u64)) == x as u64);
    assert((x as u64) as i64 == x) by (bit_vector);
}


pub proof fn lemma_version_nul_free()
    ensures
        crate::value::nul_free(version_bytes()),
        version_bytes().len() == 5,
{
    let v = version_bytes();
    assert forall|i: int| 0 <= i < v.len() implies v[i] != 0 by {
        if i == 0 {
            assert(v[0] == 0x31u8);
        } else if i == 1 {
            assert(v[1] == 0x2eu8);
        } else if i == 2 {
            assert(v[2] == 0x31u8);
        } else if i == 3 {
            assert(v[3] == 0x2eu8);
        } else {
            assert(v[4] == 0x30u8);
        }
    }
}

} // verus!
