use vstd::prelude::*;
use crate::error::TsonError;
use crate::wire::max_len;

verus! {

/// The in-memory value model: a closed tagged union, one case per wire shape.
///
/// Text (scalar strings, map keys, string-vector elements) is held as UTF-8
/// bytes without an embedded NUL, matching the NUL-terminated wire encoding.
/// `Float64`, `Float32Vec` and `Float64Vec` hold IEEE-754 bit patterns
/// (`f64::to_bits` / `f32::to_bits`), which keeps the codec free of
/// floating-point arithmetic while round-tripping every bit exactly.
#[derive(Debug, PartialEq)]
pub enum Value {
    Null,
    Bool(bool),
    Int32(i32),
    /// An IEEE-754 double, by its 64 bits.
    Float64(u64),
    /// UTF-8 bytes, no embedded NUL byte.
    Str(Vec<u8>),
    /// Heterogeneous, order-preserving.
    List(Vec<Value>),
    /// Ordered (key, value) pairs; insertion order is preserved on the wire.
    /// Key uniqueness is the producer's concern: the codec neither rejects
    /// nor merges duplicate keys.
    Mapping(Vec<(Vec<u8>, Value)>),
    Uint8Vec(Vec<u8>),
    Int8Vec(Vec<i8>),
    Uint16Vec(Vec<u16>),
    Int16Vec(Vec<i16>),
    Uint32Vec(Vec<u32>),
    Int32Vec(Vec<i32>),
    Int64Vec(Vec<i64>),
    Uint64Vec(Vec<u64>),
    /// IEEE-754 single-precision elements, each by its 32 bits.
    Float32Vec(Vec<u32>),
    /// IEEE-754 double-precision elements, each by its 64 bits.
    Float64Vec(Vec<u64>),
    StringVec(Vec<Vec<u8>>),
}

/// The mathematical model of a `Value`: the same tree with every vector seen
/// as a `Seq`. Contracts and the wire-format specification are stated over
/// this type.
pub enum ValueModel {
    Null,
    Bool(bool),
    Int32(i32),
    Float64(u64),
    Str(Seq<u8>),
    List(Seq<ValueModel>),
    Mapping(Seq<(Seq<u8>, ValueModel)>),
    Uint8Vec(Seq<u8>),
    Int8Vec(Seq<i8>),
    Uint16Vec(Seq<u16>),
    Int16Vec(Seq<i16>),
    Uint32Vec(Seq<u32>),
    Int32Vec(Seq<i32>),
    Int64Vec(Seq<i64>),
    Uint64Vec(Seq<u64>),
    Float32Vec(Seq<u32>),
    Float64Vec(Seq<u64>),
    StringVec(Seq<Seq<u8>>),
}

impl Value {
    /// The deep view: the mathematical model of this value.
    pub open spec fn dv(self) -> ValueModel
        decreases self,
    {
        match self {
            Value::Null => ValueModel::Null,
            Value::Bool(b) => ValueModel::Bool(b),
            Value::Int32(x) => ValueModel::Int32(x),
            Value::Float64(x) => ValueModel::Float64(x),
            Value::Str(s) => ValueModel::Str(s@),
            Value::List(l) => ValueModel::List(dv_seq(l@)),
            Value::Mapping(ps) => ValueModel::Mapping(dv_pairs(ps@)),
            Value::Uint8Vec(v) => ValueModel::Uint8Vec(v@),
            Value::Int8Vec(v) => ValueModel::Int8Vec(v@),
            Value::Uint16Vec(v) => ValueModel::Uint16Vec(v@),
            Value::Int16Vec(v) => ValueModel::Int16Vec(v@),
            Value::Uint32Vec(v) => ValueModel::Uint32Vec(v@),
            Value::Int32Vec(v) => ValueModel::Int32Vec(v@),
            Value::Int64Vec(v) => ValueModel::Int64Vec(v@),
            Value::Uint64Vec(v) => ValueModel::Uint64Vec(v@),
            Value::Float32Vec(v) => ValueModel::Float32Vec(v@),
            Value::Float64Vec(v) => ValueModel::Float64Vec(v@),
            Value::StringVec(ss) => ValueModel::StringVec(dv_strs(ss@)),
        }
    }
}

/// The deep view of a sequence of byte strings.
pub open spec fn dv_strs(ss: Seq<Vec<u8>>) -> Seq<Seq<u8>> {
    ss.map_values(|s: Vec<u8>| s@)
}

/// The deep view of a sequence of values.
pub open spec fn dv_seq(s: Seq<Value>) -> Seq<ValueModel>
    decreases s,
{
    if s.len() == 0 {
        Seq::empty()
    } else {
        dv_seq(s.drop_last()).push(s.last().dv())
    }
}

/// The deep view of a sequence of (key, value) pairs.
pub open spec fn dv_pairs(s: Seq<(Vec<u8>, Value)>) -> Seq<(Seq<u8>, ValueModel)>
    decreases s,
{
    if s.len() == 0 {
        Seq::empty()
    } else {
        dv_pairs(s.drop_last()).push((s.last().0@, s.last().1.dv()))
    }
}

pub proof fn lemma_dv_seq_len(s: Seq<Value>)
    ensures
        dv_seq(s).len() == s.len(),
        forall|i: int| 0 <= i < s.len() ==> #[trigger] dv_seq(s)[i] == s[i].dv(),
    decreases s,
{
    if s.len() > 0 {
        lemma_dv_seq_len(s.drop_last());
    }
}

pub proof fn lemma_dv_pairs_len(s: Seq<(Vec<u8>, Value)>)
    ensures
        dv_pairs(s).len() == s.len(),
        forall|i: int|
            0 <= i < s.len() ==> #[trigger] dv_pairs(s)[i] == (s[i].0@, s[i].1.dv()),
    decreases s,
{
    if s.len() > 0 {
        lemma_dv_pairs_len(s.drop_last());
    }
}

/// A byte run without an embedded NUL byte: representable as a NUL-terminated
/// wire string.
pub open spec fn nul_free(s: Seq<u8>) -> bool {
    forall|i: int| 0 <= i < s.len() ==> s[i] != 0
}

/// What `String::from_utf8` makes of a byte run: `Some` with the decoded
/// characters where the bytes are valid UTF-8, `None` otherwise. The result
/// depends on the bytes alone.
pub uninterp spec fn utf8_decoded(b: Seq<u8>) -> Option<Seq<char>>;

/// A byte run that the codec accepts as text: free of embedded NUL bytes and
/// valid UTF-8. The encoder rejects anything else, and the decoder never
/// produces anything else.
pub open spec fn valid_text(s: Seq<u8>) -> bool {
    nul_free(s) && utf8_decoded(s) is Some
}

/// Relies on `String::from_utf8`: decodes a byte run as UTF-8 text, refusing
/// invalid byte runs; which byte runs decode, and to what, depends on the
/// bytes alone.
#[verifier::external_body]
pub fn utf8_from_bytes(b: &[u8]) -> (r: Result<String, TsonError>)
    ensures
        match r {
            Ok(s) => utf8_decoded(b@) == Some(s@),
            Err(e) => e == TsonError::InvalidString && utf8_decoded(b@) is None,
        },
{
    match String::from_utf8(b.to_vec()) {
        Ok(s) => Ok(s),
        Err(_) => Err(TsonError::InvalidString),
    }
}

/// Whether a byte run is acceptable text, with the error the codec reports
/// when it is not.
pub fn check_text(v: &[u8]) -> (r: Result<(), TsonError>)
    ensures
        match r {
            Ok(()) => valid_text(v@),
            Err(e) => e == TsonError::InvalidString && !valid_text(v@),
        },
{
    let n = v.len();
    let mut i: usize = 0;
    while i < n
        invariant
            n == v@.len(),
            0 <= i <= n,
            forall|j: int| 0 <= j < i ==> v@[j] != 0,
        decreases n - i,
    {
        if v[i] == 0 {
            return Err(TsonError::InvalidString);
        }
        i += 1;
    }
    match utf8_from_bytes(v) {
        Ok(_) => Ok(()),
        Err(e) => Err(e),
    }
}

/// The serialized byte size of a string vector's payload: each element costs
/// its own bytes plus one terminating NUL.
pub open spec fn strvec_total(ss: Seq<Seq<u8>>) -> int
    decreases ss,
{
    if ss.len() == 0 {
        0
    } else {
        strvec_total(ss.drop_last()) + ss.last().len() + 1
    }
}

/// Every string in the value (scalar strings, map keys, string-vector
/// elements) is acceptable text: NUL-free and valid UTF-8.
pub open spec fn strings_ok(m: ValueModel) -> bool
    decreases m,
{
    match m {
        ValueModel::Str(s) => valid_text(s),
        ValueModel::List(l) => forall|i: int| 0 <= i < l.len() ==> strings_ok(#[trigger] l[i]),
        ValueModel::Mapping(ps) => forall|i: int|
            0 <= i < ps.len() ==> valid_text((#[trigger] ps[i]).0) && strings_ok(ps[i].1),
        ValueModel::StringVec(ss) => forall|i: int|
            0 <= i < ss.len() ==> valid_text(#[trigger] ss[i]),
        _ => true,
    }
}

/// Every element count in the value (and every string vector's byte budget)
/// is within `MAX_LIST_LENGTH`.
pub open spec fn counts_ok(m: ValueModel) -> bool
    decreases m,
{
    match m {
        ValueModel::List(l) => l.len() <= max_len() && forall|i: int|
            0 <= i < l.len() ==> counts_ok(#[trigger] l[i]),
        ValueModel::Mapping(ps) => ps.len() <= max_len() && forall|i: int|
            0 <= i < ps.len() ==> counts_ok((#[trigger] ps[i]).1),
        ValueModel::Uint8Vec(v) => v.len() <= max_len(),
        ValueModel::Int8Vec(v) => v.len() <= max_len(),
        ValueModel::Uint16Vec(v) => v.len() <= max_len(),
        ValueModel::Int16Vec(v) => v.len() <= max_len(),
        ValueModel::Uint32Vec(v) => v.len() <= max_len(),
        ValueModel::Int32Vec(v) => v.len() <= max_len(),
        ValueModel::Int64Vec(v) => v.len() <= max_len(),
        ValueModel::Uint64Vec(v) => v.len() <= max_len(),
        ValueModel::Float32Vec(v) => v.len() <= max_len(),
        ValueModel::Float64Vec(v) => v.len() <= max_len(),
        ValueModel::StringVec(ss) => strvec_total(ss) <= max_len(),
        _ => true,
    }
}

} // verus!
