use vstd::prelude::*;
use vstd::bytes::*;
use crate::error::TsonError;
use crate::value::{
    Value, ValueModel, dv_seq, dv_pairs, dv_strs, nul_free, valid_text, utf8_decoded,
    utf8_from_bytes, lemma_dv_seq_len, lemma_dv_pairs_len,
};
use crate::wire::{
    TAG_NULL, TAG_STRING, TAG_INTEGER, TAG_DOUBLE, TAG_BOOL, TAG_LIST, TAG_MAP, TAG_LIST_UINT8,
    TAG_LIST_INT8, TAG_LIST_UINT16, TAG_LIST_INT16, TAG_LIST_UINT32, TAG_LIST_INT32,
    TAG_LIST_INT64, TAG_LIST_UINT64, TAG_LIST_FLOAT32, TAG_LIST_FLOAT64, TAG_LIST_STRING,
    version_bytes, version_vec, bytes_eq, spec_i8_from_le_bytes, spec_i16_from_le_bytes,
    spec_i32_from_le_bytes, spec_i64_from_le_bytes,
};
use crate::reader::Reader;

verus! {

broadcast use vstd::seq::group_seq_axioms;

// ---------------------------------------------------------------------------
// The decoder, as specification: a strict recursive-descent parse of one
// tagged value from a byte sequence. Each function returns the parsed result
// and the unconsumed rest, or the error the decoder reports.
// ---------------------------------------------------------------------------

/// Scan one NUL-terminated string: the raw bytes before the first NUL, and
/// the rest after it.
pub open spec fn scan_cstr(s: Seq<u8>) -> Result<(Seq<u8>, Seq<u8>), TsonError>
    decreases s.len(),
{
    if s.len() == 0 {
        Err(TsonError::TruncatedInput)
    } else if s[0] == 0 {
        Ok((Seq::empty(), s.skip(1)))
    } else {
        match scan_cstr(s.skip(1)) {
            Ok((b, r)) => Ok((seq![s[0]] + b, r)),
            Err(e) => Err(e),
        }
    }
}

/// Parse one NUL-terminated string: scan to the terminator, then the bytes
/// before it must decode as UTF-8 text.
pub open spec fn parse_cstr(s: Seq<u8>) -> Result<(Seq<u8>, Seq<u8>), TsonError> {
    match scan_cstr(s) {
        Ok((b, r)) => if utf8_decoded(b) is Some {
            Ok((b, r))
        } else {
            Err(TsonError::InvalidString)
        },
        Err(e) => Err(e),
    }
}

/// Parse a run of `n` raw bytes.
pub open spec fn parse_u8s(s: Seq<u8>, n: nat) -> Result<(Seq<u8>, Seq<u8>), TsonError> {
    if s.len() < n {
        Err(TsonError::TruncatedInput)
    } else {
        Ok((s.take(n as int), s.skip(n as int)))
    }
}

/// Parse `n` signed 8-bit elements.
pub open spec fn parse_i8s(s: Seq<u8>, n: nat) -> Result<(Seq<i8>, Seq<u8>), TsonError>
    decreases n,
{
    if n == 0 {
        Ok((Seq::empty(), s))
    } else if s.len() < 1 {
        Err(TsonError::TruncatedInput)
    } else {
        match parse_i8s(s.skip(1), (n - 1) as nat) {
            Ok((xs, r)) => Ok((seq![spec_i8_from_le_bytes(s.take(1))] + xs, r)),
            Err(e) => Err(e),
        }
    }
}

/// Parse `n` unsigned 16-bit little-endian elements.
pub open spec fn parse_u16s(s: Seq<u8>, n: nat) -> Result<(Seq<u16>, Seq<u8>), TsonError>
    decreases n,
{
    if n == 0 {
        Ok((Seq::empty(), s))
    } else if s.len() < 2 {
        Err(TsonError::TruncatedInput)
    } else {
        match parse_u16s(s.skip(2), (n - 1) as nat) {
            Ok((xs, r)) => Ok((seq![spec_u16_from_le_bytes(s.take(2))] + xs, r)),
            Err(e) => Err(e),
        }
    }
}

/// Parse `n` signed 16-bit little-endian elements.
pub open spec fn parse_i16s(s: Seq<u8>, n: nat) -> Result<(Seq<i16>, Seq<u8>), TsonError>
    decreases n,
{
    if n == 0 {
        Ok((Seq::empty(), s))
    } else if s.len() < 2 {
        Err(TsonError::TruncatedInput)
    } else {
        match parse_i16s(s.skip(2), (n - 1) as nat) {
            Ok((xs, r)) => Ok((seq![spec_i16_from_le_bytes(s.take(2))] + xs, r)),
            Err(e) => Err(e),
        }
    }
}

/// Parse `n` unsigned 32-bit little-endian elements.
pub open spec fn parse_u32s(s: Seq<u8>, n: nat) -> Result<(Seq<u32>, Seq<u8>), TsonError>
    decreases n,
{
    if n == 0 {
        Ok((Seq::empty(), s))
    } else if s.len() < 4 {
        Err(TsonError::TruncatedInput)
    } else {
        match parse_u32s(s.skip(4), (n - 1) as nat) {
            Ok((xs, r)) => Ok((seq![spec_u32_from_le_bytes(s.take(4))] + xs, r)),
            Err(e) => Err(e),
        }
    }
}

/// Parse `n` signed 32-bit little-endian elements.
pub open spec fn parse_i32s(s: Seq<u8>, n: nat) -> Result<(Seq<i32>, Seq<u8>), TsonError>
    decreases n,
{
    if n == 0 {
        Ok((Seq::empty(), s))
    } else if s.len() < 4 {
        Err(TsonError::TruncatedInput)
    } else {
        match parse_i32s(s.skip(4), (n - 1) as nat) {
            Ok((xs, r)) => Ok((seq![spec_i32_from_le_bytes(s.take(4))] + xs, r)),
            Err(e) => Err(e),
        }
    }
}

/// Parse `n` unsigned 64-bit little-endian elements.
pub open spec fn parse_u64s(s: Seq<u8>, n: nat) -> Result<(Seq<u64>, Seq<u8>), TsonError>
    decreases n,
{
    if n == 0 {
        Ok((Seq::empty(), s))
    } else if s.len() < 8 {
        Err(TsonError::TruncatedInput)
    } else {
        match parse_u64s(s.skip(8), (n - 1) as nat) {
            Ok((xs, r)) => Ok((seq![spec_u64_from_le_bytes(s.take(8))] + xs, r)),
            Err(e) => Err(e),
        }
    }
}

/// Parse `n` signed 64-bit little-endian elements.
pub open spec fn parse_i64s(s: Seq<u8>, n: nat) -> Result<(Seq<i64>, Seq<u8>), TsonError>
    decreases n,
{
    if n == 0 {
        Ok((Seq::empty(), s))
    } else if s.len() < 8 {
        Err(TsonError::TruncatedInput)
    } else {
        match parse_i64s(s.skip(8), (n - 1) as nat) {
            Ok((xs, r)) => Ok((seq![spec_i64_from_le_bytes(s.take(8))] + xs, r)),
            Err(e) => Err(e),
        }
    }
}

/// Parse a string vector's payload: NUL-terminated strings until exactly
/// `budget` bytes are consumed. A string that would overrun the budget is a
/// format error: the declared byte count must partition exactly.
pub open spec fn parse_strvec(s: Seq<u8>, budget: int) -> Result<
    (Seq<Seq<u8>>, Seq<u8>),
    TsonError,
>
    decreases budget,
{
    if budget <= 0 {
        Ok((Seq::empty(), s))
    } else {
        match parse_cstr(s) {
            Err(e) => Err(e),
            Ok((b, rest)) => if b.len() + 1 > budget {
                Err(TsonError::FormatError)
            } else {
                match parse_strvec(rest, budget - b.len() - 1) {
                    Ok((ss, r)) => Ok((seq![b] + ss, r)),
                    Err(e) => Err(e),
                }
            },
        }
    }
}


/// The ten homogeneous numeric-vector tags.
pub open spec fn is_numvec_tag(tag: u8) -> bool {
    ||| tag == TAG_LIST_UINT8
    ||| tag == TAG_LIST_INT8
    ||| tag == TAG_LIST_UINT16
    ||| tag == TAG_LIST_INT16
    ||| tag == TAG_LIST_UINT32
    ||| tag == TAG_LIST_INT32
    ||| tag == TAG_LIST_INT64
    ||| tag == TAG_LIST_UINT64
    ||| tag == TAG_LIST_FLOAT32
    ||| tag == TAG_LIST_FLOAT64
}

/// Parse the body of a numeric vector: a 4-byte count, then that many
/// elements of the tagged width.
pub open spec fn parse_numvec(tag: u8, t: Seq<u8>) -> Result<(ValueModel, Seq<u8>), TsonError>
    recommends
        is_numvec_tag(tag),
{
    if t.len() < 4 {
        Err(TsonError::TruncatedInput)
    } else {
        let n = spec_u32_from_le_bytes(t.take(4)) as nat;
        let u = t.skip(4);
        if tag == TAG_LIST_UINT8 {
            match parse_u8s(u, n) {
                Ok((xs, r)) => Ok((ValueModel::Uint8Vec(xs), r)),
                Err(e) => Err(e),
            }
        } else if tag == TAG_LIST_INT8 {
            match parse_i8s(u, n) {
                Ok((xs, r)) => Ok((ValueModel::Int8Vec(xs), r)),
                Err(e) => Err(e),
            }
        } else if tag == TAG_LIST_UINT16 {
            match parse_u16s(u, n) {
                Ok((xs, r)) => Ok((ValueModel::Uint16Vec(xs), r)),
                Err(e) => Err(e),
            }
        } else if tag == TAG_LIST_INT16 {
            match parse_i16s(u, n) {
                Ok((xs, r)) => Ok((ValueModel::Int16Vec(xs), r)),
                Err(e) => Err(e),
            }
        } else if tag == TAG_LIST_UINT32 {
            match parse_u32s(u, n) {
                Ok((xs, r)) => Ok((ValueModel::Uint32Vec(xs), r)),
                Err(e) => Err(e),
            }
        } else if tag == TAG_LIST_INT32 {
            match parse_i32s(u, n) {
                Ok((xs, r)) => Ok((ValueModel::Int32Vec(xs), r)),
                Err(e) => Err(e),
            }
        } else if tag == TAG_LIST_INT64 {
            match parse_i64s(u, n) {
                Ok((xs, r)) => Ok((ValueModel::Int64Vec(xs), r)),
                Err(e) => Err(e),
            }
        } else if tag == TAG_LIST_UINT64 {
            match parse_u64s(u, n) {
                Ok((xs, r)) => Ok((ValueModel::Uint64Vec(xs), r)),
                Err(e) => Err(e),
            }
        } else if tag == TAG_LIST_FLOAT32 {
            match parse_u32s(u, n) {
                Ok((xs, r)) => Ok((ValueModel::Float32Vec(xs), r)),
                Err(e) => Err(e),
            }
        } else {
            match parse_u64s(u, n) {
                Ok((xs, r)) => Ok((ValueModel::Float64Vec(xs), r)),
                Err(e) => Err(e),
            }
        }
    }
}

/// Parse one tagged value.
pub open spec fn parse_obj(s: Seq<u8>) -> Result<(ValueModel, Seq<u8>), TsonError>
    decreases s.len(), 0nat,
{
    if s.len() == 0 {
        Err(TsonError::TruncatedInput)
    } else {
        let tag = s[0];
        let t = s.skip(1);
        if tag == TAG_NULL {
            Ok((ValueModel::Null, t))
        } else if tag == TAG_STRING {
            match parse_cstr(t) {
                Ok((b, r)) => Ok((ValueModel::Str(b), r)),
                Err(e) => Err(e),
            }
        } else if tag == TAG_INTEGER {
            if t.len() < 4 {
                Err(TsonError::TruncatedInput)
            } else {
                Ok((ValueModel::Int32(spec_i32_from_le_bytes(t.take(4))), t.skip(4)))
            }
        } else if tag == TAG_DOUBLE {
            if t.len() < 8 {
                Err(TsonError::TruncatedInput)
            } else {
                Ok((ValueModel::Float64(spec_u64_from_le_bytes(t.take(8))), t.skip(8)))
            }
        } else if tag == TAG_BOOL {
            if t.len() < 1 {
                Err(TsonError::TruncatedInput)
            } else {
                Ok((ValueModel::Bool(t[0] != 0), t.skip(1)))
            }
        } else if tag == TAG_LIST {
            if t.len() < 4 {
                Err(TsonError::TruncatedInput)
            } else {
                match parse_items(t.skip(4), spec_u32_from_le_bytes(t.take(4)) as nat) {
                    Ok((vs, r)) => Ok((ValueModel::List(vs), r)),
                    Err(e) => Err(e),
                }
            }
        } else if tag == TAG_MAP {
            if t.len() < 4 {
                Err(TsonError::TruncatedInput)
            } else {
                match parse_pairs(t.skip(4), spec_u32_from_le_bytes(t.take(4)) as nat) {
                    Ok((ps, r)) => Ok((ValueModel::Mapping(ps), r)),
                    Err(e) => Err(e),
                }
            }
        } else if is_numvec_tag(tag) {
            parse_numvec(tag, t)
        } else if tag == TAG_LIST_STRING {
            if t.len() < 4 {
                Err(TsonError::TruncatedInput)
            } else {
                match parse_strvec(t.skip(4), spec_u32_from_le_bytes(t.take(4)) as int) {
                    Ok((ss, r)) => Ok((ValueModel::StringVec(ss), r)),
                    Err(e) => Err(e),
                }
            }
        } else {
            Err(TsonError::FormatError)
        }
    }
}

/// Parse `n` tagged values in order.
pub open spec fn parse_items(s: Seq<u8>, n: nat) -> Result<(Seq<ValueModel>, Seq<u8>), TsonError>
    decreases s.len(), n,
{
    if n == 0 {
        Ok((Seq::empty(), s))
    } else {
        match parse_obj(s) {
            Err(e) => Err(e),
            Ok((v, rest)) => if rest.len() < s.len() {
                match parse_items(rest, (n - 1) as nat) {
                    Ok((vs, r)) => Ok((seq![v] + vs, r)),
                    Err(e) => Err(e),
                }
            } else {
                // A parse always consumes at least its tag byte, so this
                // branch is never taken; it discharges the termination check.
                Err(TsonError::FormatError)
            },
        }
    }
}

/// Parse `n` (key, value) pairs in order: each key must be a tagged
/// NUL-terminated string.
pub open spec fn parse_pairs(s: Seq<u8>, n: nat) -> Result<
    (Seq<(Seq<u8>, ValueModel)>, Seq<u8>),
    TsonError,
>
    decreases s.len(), n,
{
    if n == 0 {
        Ok((Seq::empty(), s))
    } else if s.len() == 0 {
        Err(TsonError::TruncatedInput)
    } else if s[0] != TAG_STRING {
        Err(TsonError::FormatError)
    } else {
        match parse_cstr(s.skip(1)) {
            Err(e) => Err(e),
            Ok((k, r1)) => if r1.len() >= s.len() {
                // Unreachable: a key always consumes bytes; this branch
                // discharges the termination check.
                Err(TsonError::FormatError)
            } else {
                match parse_obj(r1) {
                    Err(e) => Err(e),
                    Ok((v, rest)) => if rest.len() < s.len() {
                        match parse_pairs(rest, (n - 1) as nat) {
                            Ok((ps, r)) => Ok((seq![(k, v)] + ps, r)),
                            Err(e) => Err(e),
                        }
                    } else {
                        // Unreachable: a value always consumes its tag byte.
                        Err(TsonError::FormatError)
                    },
                }
            },
        }
    }
}

/// The tags the decoder recognizes.
pub open spec fn known_tag(t: u8) -> bool {
    ||| t == TAG_NULL
    ||| t == TAG_STRING
    ||| t == TAG_INTEGER
    ||| t == TAG_DOUBLE
    ||| t == TAG_BOOL
    ||| t == TAG_LIST
    ||| t == TAG_MAP
    ||| is_numvec_tag(t)
    ||| t == TAG_LIST_STRING
}

/// The whole decode, with the unconsumed rest: a tagged version header, then
/// one value; whatever follows the value is handed back to the caller.
pub open spec fn spec_decode_full(s: Seq<u8>) -> Result<(ValueModel, Seq<u8>), TsonError> {
    if s.len() == 0 {
        Err(TsonError::TruncatedInput)
    } else if s[0] != TAG_STRING {
        Err(TsonError::FormatError)
    } else {
        match scan_cstr(s.skip(1)) {
            Err(e) => Err(e),
            Ok((ver, rest)) => if ver != version_bytes() {
                Err(TsonError::FormatError)
            } else {
                parse_obj(rest)
            },
        }
    }
}

/// The whole decode: the value alone, trailing bytes dropped.
pub open spec fn spec_decode(s: Seq<u8>) -> Result<ValueModel, TsonError> {
    match spec_decode_full(s) {
        Ok((m, _)) => Ok(m),
        Err(e) => Err(e),
    }
}

// ---------------------------------------------------------------------------
// Consumption lemmas: every successful parse consumes part of its input, and
// a NUL-terminated string accounts for its bytes exactly.
// ---------------------------------------------------------------------------

/// A scanned NUL-terminated string is NUL-free and accounts for its input
/// exactly: the input is the string, the NUL, then the rest.
pub proof fn lemma_scan_cstr_shape(s: Seq<u8>)
    ensures
        scan_cstr(s) matches Ok(br) ==> nul_free(br.0) && s =~= br.0 + seq![0u8] + br.1
            && br.1.len() < s.len(),
    decreases s.len(),
{
    if s.len() > 0 && s[0] != 0 {
        lemma_scan_cstr_shape(s.skip(1));
        if scan_cstr(s.skip(1)) is Ok {
            let (b, r) = scan_cstr(s.skip(1))->Ok_0;
            assert(s =~= seq![s[0]] + s.skip(1));
            assert(seq![s[0]] + (b + seq![0u8] + r) =~= (seq![s[0]] + b) + seq![0u8] + r);
        }
    }
}

/// The shape of a parsed string is that of its scan: it is NUL-free, valid
/// UTF-8, and accounts for its input exactly.
pub proof fn lemma_parse_cstr_shape(s: Seq<u8>)
    ensures
        parse_cstr(s) matches Ok(br) ==> nul_free(br.0) && s =~= br.0 + seq![0u8] + br.1
            && br.1.len() < s.len(),
{
    lemma_scan_cstr_shape(s);
}

/// Every successful parse of a value consumes at least its tag byte; parses
/// of element runs never lengthen the input.
pub proof fn lemma_parse_obj_consumes(s: Seq<u8>)
    ensures
        parse_obj(s) matches Ok(vr) ==> vr.1.len() < s.len(),
    decreases s.len(),
{
    if s.len() > 0 {
        let t = s.skip(1);
        lemma_parse_cstr_shape(t);
        if t.len() >= 4 {
            let n = spec_u32_from_le_bytes(t.take(4)) as nat;
            lemma_parse_items_consumes(t.skip(4), n);
            lemma_parse_pairs_consumes(t.skip(4), n);
            lemma_parse_i8s_consumes(t.skip(4), n);
            lemma_parse_u16s_consumes(t.skip(4), n);
            lemma_parse_i16s_consumes(t.skip(4), n);
            lemma_parse_u32s_consumes(t.skip(4), n);
            lemma_parse_i32s_consumes(t.skip(4), n);
            lemma_parse_u64s_consumes(t.skip(4), n);
            lemma_parse_i64s_consumes(t.skip(4), n);
            lemma_parse_strvec_consumes(t.skip(4), spec_u32_from_le_bytes(t.take(4)) as int);
        }
    }
}

pub proof fn lemma_parse_items_consumes(s: Seq<u8>, n: nat)
    ensures
        parse_items(s, n) matches Ok(vr) ==> vr.1.len() <= s.len(),
    decreases s.len(),
{
    if n > 0 {
        if parse_obj(s) is Ok {
            let rest = parse_obj(s)->Ok_0.1;
            if rest.len() < s.len() {
                lemma_parse_items_consumes(rest, (n - 1) as nat);
            }
        }
    }
}

pub proof fn lemma_parse_pairs_consumes(s: Seq<u8>, n: nat)
    ensures
        parse_pairs(s, n) matches Ok(vr) ==> vr.1.len() <= s.len(),
    decreases s.len(),
{
    if n > 0 && s.len() > 0 && s[0] == TAG_STRING {
        lemma_parse_cstr_shape(s.skip(1));
        if parse_cstr(s.skip(1)) is Ok {
            let r1 = parse_cstr(s.skip(1))->Ok_0.1;
            lemma_parse_obj_consumes(r1);
            if parse_obj(r1) is Ok {
                let rest = parse_obj(r1)->Ok_0.1;
                if rest.len() < s.len() {
                    lemma_parse_pairs_consumes(rest, (n - 1) as nat);
                }
            }
        }
    }
}


pub proof fn lemma_parse_i8s_consumes(s: Seq<u8>, n: nat)
    ensures
        parse_i8s(s, n) matches Ok(vr) ==> vr.1.len() <= s.len(),
    decreases n,
{
    if n > 0 && s.len() >= 1 {
        lemma_parse_i8s_consumes(s.skip(1), (n - 1) as nat);
    }
}

pub proof fn lemma_parse_u16s_consumes(s: Seq<u8>, n: nat)
    ensures
        parse_u16s(s, n) matches Ok(vr) ==> vr.1.len() <= s.len(),
    decreases n,
{
    if n > 0 && s.len() >= 2 {
        lemma_parse_u16s_consumes(s.skip(2), (n - 1) as nat);
    }
}

pub proof fn lemma_parse_i16s_consumes(s: Seq<u8>, n: nat)
    ensures
        parse_i16s(s, n) matches Ok(vr) ==> vr.1.len() <= s.len(),
    decreases n,
{
    if n > 0 && s.len() >= 2 {
        lemma_parse_i16s_consumes(s.skip(2), (n - 1) as nat);
    }
}

pub proof fn lemma_parse_u32s_consumes(s: Seq<u8>, n: nat)
    ensures
        parse_u32s(s, n) matches Ok(vr) ==> vr.1.len() <= s.len(),
    decreases n,
{
    if n > 0 && s.len() >= 4 {
        lemma_parse_u32s_consumes(s.skip(4), (n - 1) as nat);
    }
}

pub proof fn lemma_parse_i32s_consumes(s: Seq<u8>, n: nat)
    ensures
        parse_i32s(s, n) matches Ok(vr) ==> vr.1.len() <= s.len(),
    decreases n,
{
    if n > 0 && s.len() >= 4 {
        lemma_parse_i32s_consumes(s.skip(4), (n - 1) as nat);
    }
}

pub proof fn lemma_parse_u64s_consumes(s: Seq<u8>, n: nat)
    ensures
        parse_u64s(s, n) matches Ok(vr) ==> vr.1.len() <= s.len(),
    decreases n,
{
    if n > 0 && s.len() >= 8 {
        lemma_parse_u64s_consumes(s.skip(8), (n - 1) as nat);
    }
}

pub proof fn lemma_parse_i64s_consumes(s: Seq<u8>, n: nat)
    ensures
        parse_i64s(s, n) matches Ok(vr) ==> vr.1.len() <= s.len(),
    decreases n,
{
    if n > 0 && s.len() >= 8 {
        lemma_parse_i64s_consumes(s.skip(8), (n - 1) as nat);
    }
}

pub proof fn lemma_parse_strvec_consumes(s: Seq<u8>, budget: int)
    ensures
        parse_strvec(s, budget) matches Ok(vr) ==> vr.1.len() <= s.len(),
    decreases budget,
{
    if budget > 0 {
        lemma_parse_cstr_shape(s);
        if parse_cstr(s) is Ok {
            let (b, rest) = parse_cstr(s)->Ok_0;
            if b.len() + 1 <= budget {
                lemma_parse_strvec_consumes(rest, budget - b.len() - 1);
            }
        }
    }
}


/// Read `n` fixed-width i8 elements.
#[verifier::loop_isolation(false)]
fn read_vec_i8(reader: &mut Reader, n: usize) -> (r: Result<Vec<i8>, TsonError>)
    requires
        old(reader).wf(),
    ensures
        final(reader).wf(),
        final(reader).source() == old(reader).source(),
        match r {
            Ok(v) => parse_i8s(old(reader).remaining(), n as nat) == Ok::<
                (Seq<i8>, Seq<u8>),
                TsonError,
            >((v@, final(reader).remaining())),
            Err(e) => parse_i8s(old(reader).remaining(), n as nat) == Err::<
                (Seq<i8>, Seq<u8>),
                TsonError,
            >(e),
        },
{
    let ghost s0 = reader.remaining();
    let mut v: Vec<i8> = Vec::new();
    proof {
        if parse_i8s(s0, n as nat) is Ok {
            let xr = parse_i8s(s0, n as nat)->Ok_0;
            assert(Seq::<i8>::empty() + xr.0 =~= xr.0);
        }
    }
    let mut i: usize = 0;
    while i < n
        invariant
            reader.wf(),
            reader.source() == old(reader).source(),
            0 <= i <= n,
            v@.len() == i,
            match parse_i8s(reader.remaining(), (n - i) as nat) {
                Ok(xr) => parse_i8s(s0, n as nat) == Ok::<(Seq<i8>, Seq<u8>), TsonError>(
                    (v@ + xr.0, xr.1),
                ),
                Err(e) => parse_i8s(s0, n as nat) == Err::<(Seq<i8>, Seq<u8>), TsonError>(e),
            },
        decreases n - i,
    {
        let ghost rem_i = reader.remaining();
        let ghost v0 = v@;
        match reader.read_i8() {
            Err(e) => {
                return Err(e);
            },
            Ok(x) => {
                v.push(x);
                proof {
                    if parse_i8s(reader.remaining(), (n - i - 1) as nat) is Ok {
                        let xr = parse_i8s(reader.remaining(), (n - i - 1) as nat)->Ok_0;
                        assert(v0 + (seq![x] + xr.0) =~= v0.push(x) + xr.0);
                    }
                }
                i += 1;
            },
        }
    }
    proof {
        assert(v@ + Seq::<i8>::empty() =~= v@);
    }
    Ok(v)
}


/// Read `n` fixed-width u16 elements.
#[verifier::loop_isolation(false)]
fn read_vec_u16(reader: &mut Reader, n: usize) -> (r: Result<Vec<u16>, TsonError>)
    requires
        old(reader).wf(),
    ensures
        final(reader).wf(),
        final(reader).source() == old(reader).source(),
        match r {
            Ok(v) => parse_u16s(old(reader).remaining(), n as nat) == Ok::<
                (Seq<u16>, Seq<u8>),
                TsonError,
            >((v@, final(reader).remaining())),
            Err(e) => parse_u16s(old(reader).remaining(), n as nat) == Err::<
                (Seq<u16>, Seq<u8>),
                TsonError,
            >(e),
        },
{
    let ghost s0 = reader.remaining();
    let mut v: Vec<u16> = Vec::new();
    proof {
        if parse_u16s(s0, n as nat) is Ok {
            let xr = parse_u16s(s0, n as nat)->Ok_0;
            assert(Seq::<u16>::empty() + xr.0 =~= xr.0);
        }
    }
    let mut i: usize = 0;
    while i < n
        invariant
            reader.wf(),
            reader.source() == old(reader).source(),
            0 <= i <= n,
            v@.len() == i,
            match parse_u16s(reader.remaining(), (n - i) as nat) {
                Ok(xr) => parse_u16s(s0, n as nat) == Ok::<(Seq<u16>, Seq<u8>), TsonError>(
                    (v@ + xr.0, xr.1),
                ),
                Err(e) => parse_u16s(s0, n as nat) == Err::<(Seq<u16>, Seq<u8>), TsonError>(e),
            },
        decreases n - i,
    {
        let ghost rem_i = reader.remaining();
        let ghost v0 = v@;
        match reader.read_u16() {
            Err(e) => {
                return Err(e);
            },
            Ok(x) => {
                v.push(x);
                proof {
                    if parse_u16s(reader.remaining(), (n - i - 1) as nat) is Ok {
                        let xr = parse_u16s(reader.remaining(), (n - i - 1) as nat)->Ok_0;
                        assert(v0 + (seq![x] + xr.0) =~= v0.push(x) + xr.0);
                    }
                }
                i += 1;
            },
        }
    }
    proof {
        assert(v@ + Seq::<u16>::empty() =~= v@);
    }
    Ok(v)
}


/// Read `n` fixed-width i16 elements.
#[verifier::loop_isolation(false)]
fn read_vec_i16(reader: &mut Reader, n: usize) -> (r: Result<Vec<i16>, TsonError>)
    requires
        old(reader).wf(),
    ensures
        final(reader).wf(),
        final(reader).source() == old(reader).source(),
        match r {
            Ok(v) => parse_i16s(old(reader).remaining(), n as nat) == Ok::<
                (Seq<i16>, Seq<u8>),
                TsonError,
            >((v@, final(reader).remaining())),
            Err(e) => parse_i16s(old(reader).remaining(), n as nat) == Err::<
                (Seq<i16>, Seq<u8>),
                TsonError,
            >(e),
        },
{
    let ghost s0 = reader.remaining();
    let mut v: Vec<i16> = Vec::new();
    proof {
        if parse_i16s(s0, n as nat) is Ok {
            let xr = parse_i16s(s0, n as nat)->Ok_0;
            assert(Seq::<i16>::empty() + xr.0 =~= xr.0);
        }
    }
    let mut i: usize = 0;
    while i < n
        invariant
            reader.wf(),
            reader.source() == old(reader).source(),
            0 <= i <= n,
            v@.len() == i,
            match parse_i16s(reader.remaining(), (n - i) as nat) {
                Ok(xr) => parse_i16s(s0, n as nat) == Ok::<(Seq<i16>, Seq<u8>), TsonError>(
                    (v@ + xr.0, xr.1),
                ),
                Err(e) => parse_i16s(s0, n as nat) == Err::<(Seq<i16>, Seq<u8>), TsonError>(e),
            },
        decreases n - i,
    {
        let ghost rem_i = reader.remaining();
        let ghost v0 = v@;
        match reader.read_i16() {
            Err(e) => {
                return Err(e);
            },
            Ok(x) => {
                v.push(x);
                proof {
                    if parse_i16s(reader.remaining(), (n - i - 1) as nat) is Ok {
                        let xr = parse_i16s(reader.remaining(), (n - i - 1) as nat)->Ok_0;
                        assert(v0 + (seq![x] + xr.0) =~= v0.push(x) + xr.0);
                    }
                }
                i += 1;
            },
        }
    }
    proof {
        assert(v@ + Seq::<i16>::empty() =~= v@);
    }
    Ok(v)
}


/// Read `n` fixed-width u32 elements.
#[verifier::loop_isolation(false)]
fn read_vec_u32(reader: &mut Reader, n: usize) -> (r: Result<Vec<u32>, TsonError>)
    requires
        old(reader).wf(),
    ensures
        final(reader).wf(),
        final(reader).source() == old(reader).source(),
        match r {
            Ok(v) => parse_u32s(old(reader).remaining(), n as nat) == Ok::<
                (Seq<u32>, Seq<u8>),
                TsonError,
            >((v@, final(reader).remaining())),
            Err(e) => parse_u32s(old(reader).remaining(), n as nat) == Err::<
                (Seq<u32>, Seq<u8>),
                TsonError,
            >(e),
        },
{
    let ghost s0 = reader.remaining();
    let mut v: Vec<u32> = Vec::new();
    proof {
        if parse_u32s(s0, n as nat) is Ok {
            let xr = parse_u32s(s0, n as nat)->Ok_0;
            assert(Seq::<u32>::empty() + xr.0 =~= xr.0);
        }
    }
    let mut i: usize = 0;
    while i < n
        invariant
            reader.wf(),
            reader.source() == old(reader).source(),
            0 <= i <= n,
            v@.len() == i,
            match parse_u32s(reader.remaining(), (n - i) as nat) {
                Ok(xr) => parse_u32s(s0, n as nat) == Ok::<(Seq<u32>, Seq<u8>), TsonError>(
                    (v@ + xr.0, xr.1),
                ),
                Err(e) => parse_u32s(s0, n as nat) == Err::<(Seq<u32>, Seq<u8>), TsonError>(e),
            },
        decreases n - i,
    {
        let ghost rem_i = reader.remaining();
        let ghost v0 = v@;
        match reader.read_u32() {
            Err(e) => {
                return Err(e);
            },
            Ok(x) => {
                v.push(x);
                proof {
                    if parse_u32s(reader.remaining(), (n - i - 1) as nat) is Ok {
                        let xr = parse_u32s(reader.remaining(), (n - i - 1) as nat)->Ok_0;
                        assert(v0 + (seq![x] + xr.0) =~= v0.push(x) + xr.0);
                    }
                }
                i += 1;
            },
        }
    }
    proof {
        assert(v@ + Seq::<u32>::empty() =~= v@);
    }
    Ok(v)
}


/// Read `n` fixed-width i32 elements.
#[verifier::loop_isolation(false)]
fn read_vec_i32(reader: &mut Reader, n: usize) -> (r: Result<Vec<i32>, TsonError>)
    requires
        old(reader).wf(),
    ensures
        final(reader).wf(),
        final(reader).source() == old(reader).source(),
        match r {
            Ok(v) => parse_i32s(old(reader).remaining(), n as nat) == Ok::<
                (Seq<i32>, Seq<u8>),
                TsonError,
            >((v@, final(reader).remaining())),
            Err(e) => parse_i32s(old(reader).remaining(), n as nat) == Err::<
                (Seq<i32>, Seq<u8>),
                TsonError,
            >(e),
        },
{
    let ghost s0 = reader.remaining();
    let mut v: Vec<i32> = Vec::new();
    proof {
        if parse_i32s(s0, n as nat) is Ok {
            let xr = parse_i32s(s0, n as nat)->Ok_0;
            assert(Seq::<i32>::empty() + xr.0 =~= xr.0);
        }
    }
    let mut i: usize = 0;
    while i < n
        invariant
            reader.wf(),
            reader.source() == old(reader).source(),
            0 <= i <= n,
            v@.len() == i,
            match parse_i32s(reader.remaining(), (n - i) as nat) {
                Ok(xr) => parse_i32s(s0, n as nat) == Ok::<(Seq<i32>, Seq<u8>), TsonError>(
                    (v@ + xr.0, xr.1),
                ),
                Err(e) => parse_i32s(s0, n as nat) == Err::<(Seq<i32>, Seq<u8>), TsonError>(e),
            },
        decreases n - i,
    {
        let ghost rem_i = reader.remaining();
        let ghost v0 = v@;
        match reader.read_i32() {
            Err(e) => {
                return Err(e);
            },
            Ok(x) => {
                v.push(x);
                proof {
                    if parse_i32s(reader.remaining(), (n - i - 1) as nat) is Ok {
                        let xr = parse_i32s(reader.remaining(), (n - i - 1) as nat)->Ok_0;
                        assert(v0 + (seq![x] + xr.0) =~= v0.push(x) + xr.0);
                    }
                }
                i += 1;
            },
        }
    }
    proof {
        assert(v@ + Seq::<i32>::empty() =~= v@);
    }
    Ok(v)
}


/// Read `n` fixed-width u64 elements.
#[verifier::loop_isolation(false)]
fn read_vec_u64(reader: &mut Reader, n: usize) -> (r: Result<Vec<u64>, TsonError>)
    requires
        old(reader).wf(),
    ensures
        final(reader).wf(),
        final(reader).source() == old(reader).source(),
        match r {
            Ok(v) => parse_u64s(old(reader).remaining(), n as nat) == Ok::<
                (Seq<u64>, Seq<u8>),
                TsonError,
            >((v@, final(reader).remaining())),
            Err(e) => parse_u64s(old(reader).remaining(), n as nat) == Err::<
                (Seq<u64>, Seq<u8>),
                TsonError,
            >(e),
        },
{
    let ghost s0 = reader.remaining();
    let mut v: Vec<u64> = Vec::new();
    proof {
        if parse_u64s(s0, n as nat) is Ok {
            let xr = parse_u64s(s0, n as nat)->Ok_0;
            assert(Seq::<u64>::empty() + xr.0 =~= xr.0);
        }
    }
    let mut i: usize = 0;
    while i < n
        invariant
            reader.wf(),
            reader.source() == old(reader).source(),
            0 <= i <= n,
            v@.len() == i,
            match parse_u64s(reader.remaining(), (n - i) as nat) {
                Ok(xr) => parse_u64s(s0, n as nat) == Ok::<(Seq<u64>, Seq<u8>), TsonError>(
                    (v@ + xr.0, xr.1),
                ),
                Err(e) => parse_u64s(s0, n as nat) == Err::<(Seq<u64>, Seq<u8>), TsonError>(e),
            },
        decreases n - i,
    {
        let ghost rem_i = reader.remaining();
        let ghost v0 = v@;
        match reader.read_u64() {
            Err(e) => {
                return Err(e);
            },
            Ok(x) => {
                v.push(x);
                proof {
                    if parse_u64s(reader.remaining(), (n - i - 1) as nat) is Ok {
                        let xr = parse_u64s(reader.remaining(), (n - i - 1) as nat)->Ok_0;
                        assert(v0 + (seq![x] + xr.0) =~= v0.push(x) + xr.0);
                    }
                }
                i += 1;
            },
        }
    }
    proof {
        assert(v@ + Seq::<u64>::empty() =~= v@);
    }
    Ok(v)
}


/// Read `n` fixed-width i64 elements.
#[verifier::loop_isolation(false)]
fn read_vec_i64(reader: &mut Reader, n: usize) -> (r: Result<Vec<i64>, TsonError>)
    requires
        old(reader).wf(),
    ensures
        final(reader).wf(),
        final(reader).source() == old(reader).source(),
        match r {
            Ok(v) => parse_i64s(old(reader).remaining(), n as nat) == Ok::<
                (Seq<i64>, Seq<u8>),
                TsonError,
            >((v@, final(reader).remaining())),
            Err(e) => parse_i64s(old(reader).remaining(), n as nat) == Err::<
                (Seq<i64>, Seq<u8>),
                TsonError,
            >(e),
        },
{
    let ghost s0 = reader.remaining();
    let mut v: Vec<i64> = Vec::new();
    proof {
        if parse_i64s(s0, n as nat) is Ok {
            let xr = parse_i64s(s0, n as nat)->Ok_0;
            assert(Seq::<i64>::empty() + xr.0 =~= xr.0);
        }
    }
    let mut i: usize = 0;
    while i < n
        invariant
            reader.wf(),
            reader.source() == old(reader).source(),
            0 <= i <= n,
            v@.len() == i,
            match parse_i64s(reader.remaining(), (n - i) as nat) {
                Ok(xr) => parse_i64s(s0, n as nat) == Ok::<(Seq<i64>, Seq<u8>), TsonError>(
                    (v@ + xr.0, xr.1),
                ),
                Err(e) => parse_i64s(s0, n as nat) == Err::<(Seq<i64>, Seq<u8>), TsonError>(e),
            },
        decreases n - i,
    {
        let ghost rem_i = reader.remaining();
        let ghost v0 = v@;
        match reader.read_i64() {
            Err(e) => {
                return Err(e);
            },
            Ok(x) => {
                v.push(x);
                proof {
                    if parse_i64s(reader.remaining(), (n - i - 1) as nat) is Ok {
                        let xr = parse_i64s(reader.remaining(), (n - i - 1) as nat)->Ok_0;
                        assert(v0 + (seq![x] + xr.0) =~= v0.push(x) + xr.0);
                    }
                }
                i += 1;
            },
        }
    }
    proof {
        assert(v@ + Seq::<i64>::empty() =~= v@);
    }
    Ok(v)
}

// ---------------------------------------------------------------------------
// The executable decoder.
// ---------------------------------------------------------------------------

/// The streaming decoder: validates the version header, then parses one
/// tagged value from a byte source.
pub struct RTsonDeserializer {}

impl RTsonDeserializer {
    pub fn new() -> (r: RTsonDeserializer) {
        RTsonDeserializer {  }
    }

    /// Decode one full stream: the version header, then one value. Bytes
    /// after the value are left unread in the source.
    pub fn read(&self, reader: &mut Reader) -> (r: Result<Value, TsonError>)
        requires
            old(reader).wf(),
        ensures
            final(reader).wf(),
            final(reader).source() == old(reader).source(),
            match r {
                Ok(v) => spec_decode_full(old(reader).remaining()) == Ok::<
                    (ValueModel, Seq<u8>),
                    TsonError,
                >((v.dv(), final(reader).remaining())),
                Err(e) => spec_decode(old(reader).remaining()) == Err::<ValueModel, TsonError>(e),
            },
            // A wrong leading tag is rejected after exactly that one byte.
            (r is Err && old(reader).remaining().len() >= 1 && old(reader).remaining()[0]
                != TAG_STRING) ==> final(reader).remaining() == old(reader).remaining().skip(1),
            // Behind a well-formed header, an unrecognized object tag is
            // rejected after exactly that one byte: no length or payload
            // bytes are consumed.
            ({
                let h = scan_cstr(old(reader).remaining().skip(1));
                (old(reader).remaining().len() >= 1 && old(reader).remaining()[0] == TAG_STRING
                    && h is Ok && h->Ok_0.0 == version_bytes() && h->Ok_0.1.len() >= 1
                    && !known_tag(h->Ok_0.1[0])) ==> final(reader).remaining()
                    == h->Ok_0.1.skip(1)
            }),
    {
        let itype = match self.read_type(reader) {
            Ok(t) => t,
            Err(e) => {
                return Err(e);
            },
        };
        if itype != TAG_STRING {
            return Err(TsonError::FormatError);
        }
        let version = match self.scan_string(reader) {
            Ok(v) => v,
            Err(e) => {
                return Err(e);
            },
        };
        let vb = version_vec();
        if !bytes_eq(version.as_slice(), vb.as_slice()) {
            return Err(TsonError::FormatError);
        }
        match self.read_object(reader) {
            Ok(v) => Ok(v),
            Err(e) => Err(e),
        }
    }

    /// Read one tag byte.
    fn read_type(&self, reader: &mut Reader) -> (r: Result<u8, TsonError>)
        requires
            old(reader).wf(),
        ensures
            final(reader).wf(),
            final(reader).source() == old(reader).source(),
            match r {
                Ok(b) => old(reader).remaining().len() >= 1 && b == old(reader).remaining()[0]
                    && final(reader).remaining() == old(reader).remaining().skip(1),
                Err(e) => e == TsonError::TruncatedInput && old(reader).remaining().len() == 0
                    && final(reader).remaining() == old(reader).remaining(),
            },
    {
        reader.read_u8()
    }

    /// Read one 4-byte unsigned length field.
    fn read_len(&self, reader: &mut Reader) -> (r: Result<usize, TsonError>)
        requires
            old(reader).wf(),
        ensures
            final(reader).wf(),
            final(reader).source() == old(reader).source(),
            match r {
                Ok(n) => old(reader).remaining().len() >= 4 && n == spec_u32_from_le_bytes(
                    old(reader).remaining().take(4),
                ) && final(reader).remaining() == old(reader).remaining().skip(4),
                Err(e) => e == TsonError::TruncatedInput && old(reader).remaining().len() < 4
                    && final(reader).remaining() == old(reader).remaining(),
            },
    {
        match reader.read_u32() {
            Ok(x) => Ok(x as usize),
            Err(e) => Err(e),
        }
    }

    /// Scan one NUL-terminated string, returning its raw bytes unexamined.
    #[verifier::loop_isolation(false)]
    fn scan_string(&self, reader: &mut Reader) -> (r: Result<Vec<u8>, TsonError>)
        requires
            old(reader).wf(),
        ensures
            final(reader).wf(),
            final(reader).source() == old(reader).source(),
            match r {
                Ok(v) => scan_cstr(old(reader).remaining()) == Ok::<
                    (Seq<u8>, Seq<u8>),
                    TsonError,
                >((v@, final(reader).remaining())),
                Err(e) => scan_cstr(old(reader).remaining()) == Err::<
                    (Seq<u8>, Seq<u8>),
                    TsonError,
                >(e),
            },
    {
        let ghost s0 = reader.remaining();
        let mut vec: Vec<u8> = Vec::new();
        proof {
            if scan_cstr(s0) is Ok {
                let br = scan_cstr(s0)->Ok_0;
                assert(Seq::<u8>::empty() + br.0 =~= br.0);
            }
        }
        loop
            invariant
                reader.wf(),
                reader.source() == old(reader).source(),
                match scan_cstr(reader.remaining()) {
                    Ok(br) => scan_cstr(s0) == Ok::<(Seq<u8>, Seq<u8>), TsonError>(
                        (vec@ + br.0, br.1),
                    ),
                    Err(e) => scan_cstr(s0) == Err::<(Seq<u8>, Seq<u8>), TsonError>(e),
                },
            decreases reader.remaining().len(),
        {
            let ghost rem_i = reader.remaining();
            let ghost v0 = vec@;
            match reader.read_u8() {
                Err(e) => {
                    return Err(e);
                },
                Ok(byte) => {
                    if byte == 0 {
                        proof {
                            assert(vec@ + Seq::<u8>::empty() =~= vec@);
                        }
                        return Ok(vec);
                    }
                    vec.push(byte);
                    proof {
                        if scan_cstr(reader.remaining()) is Ok {
                            let br = scan_cstr(reader.remaining())->Ok_0;
                            assert(v0 + (seq![byte] + br.0) =~= v0.push(byte) + br.0);
                        }
                    }
                },
            }
        }
    }

    /// Read one NUL-terminated string and require it to be UTF-8 text, as
    /// the wire format's strings are.
    fn read_string(&self, reader: &mut Reader) -> (r: Result<Vec<u8>, TsonError>)
        requires
            old(reader).wf(),
        ensures
            final(reader).wf(),
            final(reader).source() == old(reader).source(),
            match r {
                Ok(v) => parse_cstr(old(reader).remaining()) == Ok::<
                    (Seq<u8>, Seq<u8>),
                    TsonError,
                >((v@, final(reader).remaining())),
                Err(e) => parse_cstr(old(reader).remaining()) == Err::<
                    (Seq<u8>, Seq<u8>),
                    TsonError,
                >(e),
            },
    {
        let v = match self.scan_string(reader) {
            Ok(v) => v,
            Err(e) => {
                return Err(e);
            },
        };
        match utf8_from_bytes(v.as_slice()) {
            Ok(_) => Ok(v),
            Err(e) => Err(e),
        }
    }

    /// Parse one tagged value, recursively.
    #[verifier::rlimit(100)]
    #[verifier::loop_isolation(false)]
    fn read_object(&self, reader: &mut Reader) -> (r: Result<Value, TsonError>)
        requires
            old(reader).wf(),
        ensures
            final(reader).wf(),
            final(reader).source() == old(reader).source(),
            match r {
                Ok(v) => parse_obj(old(reader).remaining()) == Ok::<
                    (ValueModel, Seq<u8>),
                    TsonError,
                >((v.dv(), final(reader).remaining())),
                Err(e) => parse_obj(old(reader).remaining()) == Err::<
                    (ValueModel, Seq<u8>),
                    TsonError,
                >(e),
            },
            // An unrecognized tag is rejected after exactly that one byte:
            // no length or payload bytes are consumed.
            (old(reader).remaining().len() >= 1 && !known_tag(old(reader).remaining()[0]))
                ==> final(reader).remaining() == old(reader).remaining().skip(1),
        decreases reader.remaining().len(),
    {
        let ghost s0 = reader.remaining();
        let itype = match self.read_type(reader) {
            Ok(t) => t,
            Err(e) => {
                return Err(e);
            },
        };
        let ghost t = s0.skip(1);
        if itype == TAG_NULL {
            Ok(Value::Null)
        } else if itype == TAG_STRING {
            match self.read_string(reader) {
                Ok(v) => Ok(Value::Str(v)),
                Err(e) => Err(e),
            }
        } else if itype == TAG_INTEGER {
            match reader.read_i32() {
                Ok(x) => Ok(Value::Int32(x)),
                Err(e) => Err(e),
            }
        } else if itype == TAG_DOUBLE {
            match reader.read_u64() {
                Ok(x) => Ok(Value::Float64(x)),
                Err(e) => Err(e),
            }
        } else if itype == TAG_BOOL {
            match reader.read_u8() {
                Ok(b) => Ok(Value::Bool(b > 0)),
                Err(e) => Err(e),
            }
        } else if itype == TAG_LIST {
            match self.read_list(reader) {
                Ok(v) => Ok(Value::List(v)),
                Err(e) => Err(e),
            }
        } else if itype == TAG_MAP {
            match self.read_map(reader) {
                Ok(v) => Ok(Value::Mapping(v)),
                Err(e) => Err(e),
            }
        } else if itype == TAG_LIST_UINT8 || itype == TAG_LIST_INT8 || itype
            == TAG_LIST_UINT16 || itype == TAG_LIST_INT16 || itype == TAG_LIST_UINT32 || itype
            == TAG_LIST_INT32 || itype == TAG_LIST_INT64 || itype == TAG_LIST_UINT64 || itype
            == TAG_LIST_FLOAT32 || itype == TAG_LIST_FLOAT64 {
            self.read_numvec(itype, reader)
        } else if itype == TAG_LIST_STRING {
            match self.read_strvec(reader) {
                Ok(v) => Ok(Value::StringVec(v)),
                Err(e) => Err(e),
            }
        } else {
            Err(TsonError::FormatError)
        }
    }


    /// Parse the body of a numeric vector: a 4-byte count, then that many
    /// elements of the width the tag names.
    #[verifier::rlimit(100)]
    #[verifier::loop_isolation(false)]
    fn read_numvec(&self, itype: u8, reader: &mut Reader) -> (r: Result<Value, TsonError>)
        requires
            old(reader).wf(),
            is_numvec_tag(itype),
        ensures
            final(reader).wf(),
            final(reader).source() == old(reader).source(),
            match r {
                Ok(v) => parse_numvec(itype, old(reader).remaining()) == Ok::<
                    (ValueModel, Seq<u8>),
                    TsonError,
                >((v.dv(), final(reader).remaining())),
                Err(e) => parse_numvec(itype, old(reader).remaining()) == Err::<
                    (ValueModel, Seq<u8>),
                    TsonError,
                >(e),
            },
    {
        let n = match self.read_len(reader) {
            Ok(n) => n,
            Err(e) => {
                return Err(e);
            },
        };
        if itype == TAG_LIST_UINT8 {
            match reader.read_bytes(n) {
                Ok(v) => Ok(Value::Uint8Vec(v)),
                Err(e) => Err(e),
            }
        } else if itype == TAG_LIST_INT8 {
            match read_vec_i8(reader, n) {
                Ok(v) => Ok(Value::Int8Vec(v)),
                Err(e) => Err(e),
            }
        } else if itype == TAG_LIST_UINT16 {
            match read_vec_u16(reader, n) {
                Ok(v) => Ok(Value::Uint16Vec(v)),
                Err(e) => Err(e),
            }
        } else if itype == TAG_LIST_INT16 {
            match read_vec_i16(reader, n) {
                Ok(v) => Ok(Value::Int16Vec(v)),
                Err(e) => Err(e),
            }
        } else if itype == TAG_LIST_UINT32 {
            match read_vec_u32(reader, n) {
                Ok(v) => Ok(Value::Uint32Vec(v)),
                Err(e) => Err(e),
            }
        } else if itype == TAG_LIST_INT32 {
            match read_vec_i32(reader, n) {
                Ok(v) => Ok(Value::Int32Vec(v)),
                Err(e) => Err(e),
            }
        } else if itype == TAG_LIST_INT64 {
            match read_vec_i64(reader, n) {
                Ok(v) => Ok(Value::Int64Vec(v)),
                Err(e) => Err(e),
            }
        } else if itype == TAG_LIST_UINT64 {
            match read_vec_u64(reader, n) {
                Ok(v) => Ok(Value::Uint64Vec(v)),
                Err(e) => Err(e),
            }
        } else if itype == TAG_LIST_FLOAT32 {
            match read_vec_u32(reader, n) {
                Ok(v) => Ok(Value::Float32Vec(v)),
                Err(e) => Err(e),
            }
        } else {
            match read_vec_u64(reader, n) {
                Ok(v) => Ok(Value::Float64Vec(v)),
                Err(e) => Err(e),
            }
        }
    }

    /// Parse the body that follows a `TAG_LIST` tag: a 4-byte count, then the
    /// payload.
    #[verifier::rlimit(100)]
    #[verifier::loop_isolation(false)]
    fn read_list(&self, reader: &mut Reader) -> (r: Result<Vec<Value>, TsonError>)
        requires
            old(reader).wf(),
        ensures
            final(reader).wf(),
            final(reader).source() == old(reader).source(),
            match r {
                Ok(v) => old(reader).remaining().len() >= 4 && parse_items(
                    old(reader).remaining().skip(4),
                    spec_u32_from_le_bytes(old(reader).remaining().take(4)) as nat,
                ) == Ok::<(Seq<ValueModel>, Seq<u8>), TsonError>((dv_seq(v@), final(reader).remaining())),
                Err(e) => (old(reader).remaining().len() < 4 && e == TsonError::TruncatedInput)
                    || (old(reader).remaining().len() >= 4 && parse_items(
                    old(reader).remaining().skip(4),
                    spec_u32_from_le_bytes(old(reader).remaining().take(4)) as nat,
                ) == Err::<(Seq<ValueModel>, Seq<u8>), TsonError>(e)),
            },
        decreases reader.remaining().len(),
    {
        let ghost s0 = reader.remaining();

            let n = match self.read_len(reader) {
                Ok(n) => n,
                Err(e) => {
                    return Err(e);
                },
            };
            let ghost body0 = reader.remaining();
            let mut lst: Vec<Value> = Vec::new();
            proof {
                assert(dv_seq(lst@) =~= Seq::<ValueModel>::empty());
                if parse_items(body0, n as nat) is Ok {
                    let vr = parse_items(body0, n as nat)->Ok_0;
                    assert(Seq::<ValueModel>::empty() + vr.0 =~= vr.0);
                }
            }
            let mut i: usize = 0;
            while i < n
                invariant
                    reader.wf(),
                    reader.source() == old(reader).source(),
                    0 <= i <= n,
                    lst@.len() == i,
                    reader.remaining().len() < s0.len(),
                    match parse_items(reader.remaining(), (n - i) as nat) {
                        Ok(vr) => parse_items(body0, n as nat) == Ok::<
                            (Seq<ValueModel>, Seq<u8>),
                            TsonError,
                        >((dv_seq(lst@) + vr.0, vr.1)),
                        Err(e) => parse_items(body0, n as nat) == Err::<
                            (Seq<ValueModel>, Seq<u8>),
                            TsonError,
                        >(e),
                    },
                decreases n - i,
            {
                let ghost rem_i = reader.remaining();
                let ghost l0 = lst@;
                match self.read_object(reader) {
                    Err(e) => {
                        return Err(e);
                    },
                    Ok(v) => {
                        proof {
                            lemma_parse_obj_consumes(rem_i);
                            assert(l0.push(v).drop_last() =~= l0);
                            assert(dv_seq(l0.push(v)) == dv_seq(l0).push(v.dv()));
                            if parse_items(reader.remaining(), (n - i - 1) as nat) is Ok {
                                let vr = parse_items(reader.remaining(), (n - i - 1) as nat)->Ok_0;
                                assert(dv_seq(l0) + (seq![v.dv()] + vr.0) =~= dv_seq(l0).push(
                                    v.dv(),
                                ) + vr.0);
                            }
                        }
                        lst.push(v);
                        i += 1;
                    },
                }
            }
            proof {
                if parse_items(reader.remaining(), 0nat) is Ok {
                    assert(dv_seq(lst@) + Seq::<ValueModel>::empty() =~= dv_seq(lst@));
                }
            }
            Ok(lst)
        
    }

    /// Parse the body that follows a `TAG_MAP` tag: a 4-byte count, then the
    /// payload.
    #[verifier::rlimit(100)]
    #[verifier::loop_isolation(false)]
    fn read_map(&self, reader: &mut Reader) -> (r: Result<Vec<(Vec<u8>, Value)>, TsonError>)
        requires
            old(reader).wf(),
        ensures
            final(reader).wf(),
            final(reader).source() == old(reader).source(),
            match r {
                Ok(v) => old(reader).remaining().len() >= 4 && parse_pairs(
                    old(reader).remaining().skip(4),
                    spec_u32_from_le_bytes(old(reader).remaining().take(4)) as nat,
                ) == Ok::<(Seq<(Seq<u8>, ValueModel)>, Seq<u8>), TsonError>((dv_pairs(v@), final(reader).remaining())),
                Err(e) => (old(reader).remaining().len() < 4 && e == TsonError::TruncatedInput)
                    || (old(reader).remaining().len() >= 4 && parse_pairs(
                    old(reader).remaining().skip(4),
                    spec_u32_from_le_bytes(old(reader).remaining().take(4)) as nat,
                ) == Err::<(Seq<(Seq<u8>, ValueModel)>, Seq<u8>), TsonError>(e)),
            },
        decreases reader.remaining().len(),
    {
        let ghost s0 = reader.remaining();

            let n = match self.read_len(reader) {
                Ok(n) => n,
                Err(e) => {
                    return Err(e);
                },
            };
            let ghost body0 = reader.remaining();
            let mut pairs: Vec<(Vec<u8>, Value)> = Vec::new();
            proof {
                assert(dv_pairs(pairs@) =~= Seq::<(Seq<u8>, ValueModel)>::empty());
                if parse_pairs(body0, n as nat) is Ok {
                    let vr = parse_pairs(body0, n as nat)->Ok_0;
                    assert(Seq::<(Seq<u8>, ValueModel)>::empty() + vr.0 =~= vr.0);
                }
            }
            let mut i: usize = 0;
            while i < n
                invariant
                    reader.wf(),
                    reader.source() == old(reader).source(),
                    0 <= i <= n,
                    pairs@.len() == i,
                    reader.remaining().len() < s0.len(),
                    match parse_pairs(reader.remaining(), (n - i) as nat) {
                        Ok(vr) => parse_pairs(body0, n as nat) == Ok::<
                            (Seq<(Seq<u8>, ValueModel)>, Seq<u8>),
                            TsonError,
                        >((dv_pairs(pairs@) + vr.0, vr.1)),
                        Err(e) => parse_pairs(body0, n as nat) == Err::<
                            (Seq<(Seq<u8>, ValueModel)>, Seq<u8>),
                            TsonError,
                        >(e),
                    },
                decreases n - i,
            {
                let ghost rem_i = reader.remaining();
                let ghost p0 = pairs@;
                let ktag = match self.read_type(reader) {
                    Ok(t) => t,
                    Err(e) => {
                        return Err(e);
                    },
                };
                if ktag != TAG_STRING {
                    return Err(TsonError::FormatError);
                }
                let key = match self.read_string(reader) {
                    Ok(k) => k,
                    Err(e) => {
                        return Err(e);
                    },
                };
                proof {
                    lemma_parse_cstr_shape(rem_i.skip(1));
                }
                let value = match self.read_object(reader) {
                    Err(e) => {
                        return Err(e);
                    },
                    Ok(v) => v,
                };
                proof {
                    lemma_parse_obj_consumes(parse_cstr(rem_i.skip(1))->Ok_0.1);
                    assert(p0.push((key, value)).drop_last() =~= p0);
                    assert(dv_pairs(p0.push((key, value))) == dv_pairs(p0).push(
                        (key@, value.dv()),
                    ));
                    if parse_pairs(reader.remaining(), (n - i - 1) as nat) is Ok {
                        let vr = parse_pairs(reader.remaining(), (n - i - 1) as nat)->Ok_0;
                        assert(dv_pairs(p0) + (seq![(key@, value.dv())] + vr.0) =~= dv_pairs(
                            p0,
                        ).push((key@, value.dv())) + vr.0);
                    }
                }
                pairs.push((key, value));
                i += 1;
            }
            proof {
                if parse_pairs(reader.remaining(), 0nat) is Ok {
                    assert(dv_pairs(pairs@) + Seq::<(Seq<u8>, ValueModel)>::empty() =~= dv_pairs(
                        pairs@,
                    ));
                }
            }
            Ok(pairs)
        
    }

    /// Parse the body that follows a `TAG_LIST_STRING` tag: a 4-byte count, then the
    /// payload.
    #[verifier::rlimit(100)]
    #[verifier::loop_isolation(false)]
    fn read_strvec(&self, reader: &mut Reader) -> (r: Result<Vec<Vec<u8>>, TsonError>)
        requires
            old(reader).wf(),
        ensures
            final(reader).wf(),
            final(reader).source() == old(reader).source(),
            match r {
                Ok(v) => old(reader).remaining().len() >= 4 && parse_strvec(
                    old(reader).remaining().skip(4),
                    spec_u32_from_le_bytes(old(reader).remaining().take(4)) as int,
                ) == Ok::<(Seq<Seq<u8>>, Seq<u8>), TsonError>((dv_strs(v@), final(reader).remaining())),
                Err(e) => (old(reader).remaining().len() < 4 && e == TsonError::TruncatedInput)
                    || (old(reader).remaining().len() >= 4 && parse_strvec(
                    old(reader).remaining().skip(4),
                    spec_u32_from_le_bytes(old(reader).remaining().take(4)) as int,
                ) == Err::<(Seq<Seq<u8>>, Seq<u8>), TsonError>(e)),
            },
        decreases reader.remaining().len(),
    {
        let ghost s0 = reader.remaining();

            let total = match self.read_len(reader) {
                Ok(n) => n,
                Err(e) => {
                    return Err(e);
                },
            };
            let ghost body0 = reader.remaining();
            let mut strs: Vec<Vec<u8>> = Vec::new();
            let mut budget: usize = total;
            proof {
                assert(dv_strs(strs@) =~= Seq::<Seq<u8>>::empty());
                if parse_strvec(body0, total as int) is Ok {
                    let vr = parse_strvec(body0, total as int)->Ok_0;
                    assert(Seq::<Seq<u8>>::empty() + vr.0 =~= vr.0);
                }
            }
            while budget > 0
                invariant
                    reader.wf(),
                    reader.source() == old(reader).source(),
                    budget <= total,
                    match parse_strvec(reader.remaining(), budget as int) {
                        Ok(vr) => parse_strvec(body0, total as int) == Ok::<
                            (Seq<Seq<u8>>, Seq<u8>),
                            TsonError,
                        >((dv_strs(strs@) + vr.0, vr.1)),
                        Err(e) => parse_strvec(body0, total as int) == Err::<
                            (Seq<Seq<u8>>, Seq<u8>),
                            TsonError,
                        >(e),
                    },
                decreases budget,
            {
                let ghost rem_i = reader.remaining();
                let ghost st0 = strs@;
                let sv = match self.read_string(reader) {
                    Ok(s) => s,
                    Err(e) => {
                        return Err(e);
                    },
                };
                if sv.len() >= budget {
                    return Err(TsonError::FormatError);
                }
                let used = sv.len() + 1;
                budget = budget - used;
                proof {
                    assert(st0.push(sv).drop_last() =~= st0);
                    assert(dv_strs(st0.push(sv)) =~= dv_strs(st0).push(sv@));
                    if parse_strvec(reader.remaining(), budget as int) is Ok {
                        let vr = parse_strvec(reader.remaining(), budget as int)->Ok_0;
                        assert(dv_strs(st0) + (seq![sv@] + vr.0) =~= dv_strs(st0).push(sv@)
                            + vr.0);
                    }
                }
                strs.push(sv);
            }
            proof {
                if parse_strvec(reader.remaining(), 0int) is Ok {
                    assert(dv_strs(strs@) + Seq::<Seq<u8>>::empty() =~= dv_strs(strs@));
                }
            }
            Ok(strs)
        
    }
}

/// Drains a byte source into one raw byte payload.
pub struct RBinaryDeserializer {}

impl RBinaryDeserializer {
    pub fn new() -> (r: RBinaryDeserializer) {
        RBinaryDeserializer {  }
    }

    /// Hand back the rest of the source, byte for byte.
    pub fn read(&self, reader: &mut Reader) -> (r: Vec<u8>)
        requires
            old(reader).wf(),
        ensures
            final(reader).wf(),
            final(reader).source() == old(reader).source(),
            final(reader).remaining().len() == 0,
            r@ == old(reader).remaining(),
    {
        let mut buf: Vec<u8> = Vec::new();
        reader.read_all(&mut buf);
        buf
    }
}

/// Drains a byte source and decodes it as UTF-8 text.
pub struct RUTF8Deserializer {}

impl RUTF8Deserializer {
    pub fn new() -> (r: RUTF8Deserializer) {
        RUTF8Deserializer {  }
    }

    /// Decode the rest of the source as UTF-8 text.
    pub fn read(&self, reader: &mut Reader) -> (r: Result<String, TsonError>)
        requires
            old(reader).wf(),
        ensures
            final(reader).wf(),
            final(reader).source() == old(reader).source(),
            final(reader).remaining().len() == 0,
            match r {
                Ok(s) => utf8_decoded(old(reader).remaining()) == Some(s@),
                Err(e) => e == TsonError::InvalidString && utf8_decoded(
                    old(reader).remaining(),
                ) is None,
            },
    {
        let mut buf: Vec<u8> = Vec::new();
        reader.read_all(&mut buf);
        utf8_from_bytes(buf.as_slice())
    }
}

} // verus!
