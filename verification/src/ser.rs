use vstd::prelude::*;
use vstd::bytes::*;
use crate::error::TsonError;
use crate::value::{
    Value, ValueModel, dv_seq, dv_pairs, dv_strs, nul_free, valid_text, check_text, strvec_total,
    lemma_dv_seq_len, lemma_dv_pairs_len,
};
use crate::wire::{
    TAG_NULL, TAG_STRING, TAG_INTEGER, TAG_DOUBLE, TAG_BOOL, TAG_LIST, TAG_MAP, TAG_LIST_UINT8,
    TAG_LIST_INT8, TAG_LIST_UINT16, TAG_LIST_INT16, TAG_LIST_UINT32, TAG_LIST_INT32,
    TAG_LIST_INT64, TAG_LIST_UINT64, TAG_LIST_FLOAT32, TAG_LIST_FLOAT64, TAG_LIST_STRING,
    MAX_LIST_LENGTH, max_len, version_bytes, version_vec, lemma_version_nul_free,
    spec_i8_to_le_bytes,
    spec_i16_to_le_bytes, spec_i32_to_le_bytes, spec_i64_to_le_bytes,
};
use crate::writer::{Writer, CountWriter, BufWriter};

verus! {

broadcast use vstd::seq::group_seq_axioms;

// ---------------------------------------------------------------------------
// The wire image, as specification. `enc_value` is the single source of truth
// for what the encoder emits: one tag byte per value, then the payload. It
// returns the first error of the traversal where the value cannot be encoded.
// ---------------------------------------------------------------------------

/// Little-endian images of whole element runs, one per element width.
pub open spec fn enc_i8s(s: Seq<i8>) -> Seq<u8>
    decreases s,
{
    if s.len() == 0 {
        Seq::empty()
    } else {
        enc_i8s(s.drop_last()) + spec_i8_to_le_bytes(s.last())
    }
}

pub open spec fn enc_u16s(s: Seq<u16>) -> Seq<u8>
    decreases s,
{
    if s.len() == 0 {
        Seq::empty()
    } else {
        enc_u16s(s.drop_last()) + spec_u16_to_le_bytes(s.last())
    }
}

pub open spec fn enc_i16s(s: Seq<i16>) -> Seq<u8>
    decreases s,
{
    if s.len() == 0 {
        Seq::empty()
    } else {
        enc_i16s(s.drop_last()) + spec_i16_to_le_bytes(s.last())
    }
}

pub open spec fn enc_u32s(s: Seq<u32>) -> Seq<u8>
    decreases s,
{
    if s.len() == 0 {
        Seq::empty()
    } else {
        enc_u32s(s.drop_last()) + spec_u32_to_le_bytes(s.last())
    }
}

pub open spec fn enc_i32s(s: Seq<i32>) -> Seq<u8>
    decreases s,
{
    if s.len() == 0 {
        Seq::empty()
    } else {
        enc_i32s(s.drop_last()) + spec_i32_to_le_bytes(s.last())
    }
}

pub open spec fn enc_u64s(s: Seq<u64>) -> Seq<u8>
    decreases s,
{
    if s.len() == 0 {
        Seq::empty()
    } else {
        enc_u64s(s.drop_last()) + spec_u64_to_le_bytes(s.last())
    }
}

pub open spec fn enc_i64s(s: Seq<i64>) -> Seq<u8>
    decreases s,
{
    if s.len() == 0 {
        Seq::empty()
    } else {
        enc_i64s(s.drop_last()) + spec_i64_to_le_bytes(s.last())
    }
}

/// The payload of a string vector: each string's bytes, NUL-terminated, in
/// order — no per-string tag. Fails on the first string that is not
/// acceptable text (an embedded NUL, or bytes that are not UTF-8).
pub open spec fn enc_strs(ss: Seq<Seq<u8>>) -> Result<Seq<u8>, TsonError>
    decreases ss,
{
    if ss.len() == 0 {
        Ok(Seq::empty())
    } else {
        match enc_strs(ss.drop_last()) {
            Err(e) => Err(e),
            Ok(init) => if valid_text(ss.last()) {
                Ok(init + ss.last() + seq![0u8])
            } else {
                Err(TsonError::InvalidString)
            },
        }
    }
}

/// The encoded image of one value, or the first error of the traversal.
pub open spec fn enc_value(m: ValueModel) -> Result<Seq<u8>, TsonError>
    decreases m,
{
    match m {
        ValueModel::Null => Ok(seq![TAG_NULL]),
        ValueModel::Bool(b) => Ok(seq![TAG_BOOL, if b { 1u8 } else { 0u8 }]),
        ValueModel::Int32(x) => Ok(seq![TAG_INTEGER] + spec_i32_to_le_bytes(x)),
        ValueModel::Float64(x) => Ok(seq![TAG_DOUBLE] + spec_u64_to_le_bytes(x)),
        ValueModel::Str(s) => if valid_text(s) {
            Ok(seq![TAG_STRING] + s + seq![0u8])
        } else {
            Err(TsonError::InvalidString)
        },
        ValueModel::List(l) => if l.len() > max_len() {
            Err(TsonError::TooLarge)
        } else {
            match enc_items(l) {
                Ok(body) => Ok(seq![TAG_LIST] + spec_u32_to_le_bytes(l.len() as u32) + body),
                Err(e) => Err(e),
            }
        },
        ValueModel::Mapping(ps) => if ps.len() > max_len() {
            Err(TsonError::TooLarge)
        } else {
            match enc_pairs(ps) {
                Ok(body) => Ok(seq![TAG_MAP] + spec_u32_to_le_bytes(ps.len() as u32) + body),
                Err(e) => Err(e),
            }
        },
        ValueModel::Uint8Vec(v) => if v.len() > max_len() {
            Err(TsonError::TooLarge)
        } else {
            Ok(seq![TAG_LIST_UINT8] + spec_u32_to_le_bytes(v.len() as u32) + v)
        },
        ValueModel::Int8Vec(v) => if v.len() > max_len() {
            Err(TsonError::TooLarge)
        } else {
            Ok(seq![TAG_LIST_INT8] + spec_u32_to_le_bytes(v.len() as u32) + enc_i8s(v))
        },
        ValueModel::Uint16Vec(v) => if v.len() > max_len() {
            Err(TsonError::TooLarge)
        } else {
            Ok(seq![TAG_LIST_UINT16] + spec_u32_to_le_bytes(v.len() as u32) + enc_u16s(v))
        },
        ValueModel::Int16Vec(v) => if v.len() > max_len() {
            Err(TsonError::TooLarge)
        } else {
            Ok(seq![TAG_LIST_INT16] + spec_u32_to_le_bytes(v.len() as u32) + enc_i16s(v))
        },
        ValueModel::Uint32Vec(v) => if v.len() > max_len() {
            Err(TsonError::TooLarge)
        } else {
            Ok(seq![TAG_LIST_UINT32] + spec_u32_to_le_bytes(v.len() as u32) + enc_u32s(v))
        },
        ValueModel::Int32Vec(v) => if v.len() > max_len() {
            Err(TsonError::TooLarge)
        } else {
            Ok(seq![TAG_LIST_INT32] + spec_u32_to_le_bytes(v.len() as u32) + enc_i32s(v))
        },
        ValueModel::Int64Vec(v) => if v.len() > max_len() {
            Err(TsonError::TooLarge)
        } else {
            Ok(seq![TAG_LIST_INT64] + spec_u32_to_le_bytes(v.len() as u32) + enc_i64s(v))
        },
        ValueModel::Uint64Vec(v) => if v.len() > max_len() {
            Err(TsonError::TooLarge)
        } else {
            Ok(seq![TAG_LIST_UINT64] + spec_u32_to_le_bytes(v.len() as u32) + enc_u64s(v))
        },
        ValueModel::Float32Vec(v) => if v.len() > max_len() {
            Err(TsonError::TooLarge)
        } else {
            Ok(seq![TAG_LIST_FLOAT32] + spec_u32_to_le_bytes(v.len() as u32) + enc_u32s(v))
        },
        ValueModel::Float64Vec(v) => if v.len() > max_len() {
            Err(TsonError::TooLarge)
        } else {
            Ok(seq![TAG_LIST_FLOAT64] + spec_u32_to_le_bytes(v.len() as u32) + enc_u64s(v))
        },
        ValueModel::StringVec(ss) => if strvec_total(ss) > max_len() {
            Err(TsonError::TooLarge)
        } else {
            match enc_strs(ss) {
                Ok(p) => Ok(
                    seq![TAG_LIST_STRING] + spec_u32_to_le_bytes(strvec_total(ss) as u32) + p,
                ),
                Err(e) => Err(e),
            }
        },
    }
}

/// The concatenated images of a list's elements, or the first error.
pub open spec fn enc_items(l: Seq<ValueModel>) -> Result<Seq<u8>, TsonError>
    decreases l,
{
    if l.len() == 0 {
        Ok(Seq::empty())
    } else {
        match enc_items(l.drop_last()) {
            Err(e) => Err(e),
            Ok(init) => match enc_value(l.last()) {
                Ok(b) => Ok(init + b),
                Err(e) => Err(e),
            },
        }
    }
}

/// The concatenated images of a map's pairs — each key as a tagged
/// NUL-terminated string, then the value — or the first error.
pub open spec fn enc_pairs(ps: Seq<(Seq<u8>, ValueModel)>) -> Result<Seq<u8>, TsonError>
    decreases ps,
{
    if ps.len() == 0 {
        Ok(Seq::empty())
    } else {
        match enc_pairs(ps.drop_last()) {
            Err(e) => Err(e),
            Ok(init) => if !valid_text(ps.last().0) {
                Err(TsonError::InvalidString)
            } else {
                match enc_value(ps.last().1) {
                    Ok(b) => Ok(init + seq![TAG_STRING] + ps.last().0 + seq![0u8] + b),
                    Err(e) => Err(e),
                }
            },
        }
    }
}

/// The stream header: a tagged, NUL-terminated version token.
pub open spec fn header_bytes() -> Seq<u8> {
    seq![TAG_STRING] + version_bytes() + seq![0u8]
}

/// The full encoded stream of a value: the version header, then the value.
pub open spec fn enc_stream(m: ValueModel) -> Result<Seq<u8>, TsonError> {
    match enc_value(m) {
        Ok(b) => Ok(header_bytes() + b),
        Err(e) => Err(e),
    }
}

/// What a failed encoding call reports: the traversal's own first error, or,
/// for an encodable value alone, `TooLarge` where the encoded stream could
/// not fit in memory. The two cases exclude each other, so both encoder
/// passes report the same error for the same value.
pub open spec fn enc_failure(m: ValueModel, e: TsonError) -> bool {
    ||| enc_value(m) == Err::<Seq<u8>, TsonError>(e)
    ||| (e == TsonError::TooLarge && enc_value(m) is Ok && (enc_value(m) matches Ok(b)
        ==> header_bytes().len() + b.len() > usize::MAX))
}

// ---------------------------------------------------------------------------
// Structural lemmas about the wire image.
// ---------------------------------------------------------------------------

pub proof fn lemma_enc_i8s_len(s: Seq<i8>)
    ensures
        enc_i8s(s).len() == s.len(),
    decreases s,
{
    if s.len() > 0 {
        lemma_enc_i8s_len(s.drop_last());
    }
}

pub proof fn lemma_enc_u16s_len(s: Seq<u16>)
    ensures
        enc_u16s(s).len() == 2 * s.len(),
    decreases s,
{
    if s.len() > 0 {
        lemma_enc_u16s_len(s.drop_last());
        lemma_auto_spec_u16_to_from_le_bytes();
    }
}

pub proof fn lemma_enc_i16s_len(s: Seq<i16>)
    ensures
        enc_i16s(s).len() == 2 * s.len(),
    decreases s,
{
    if s.len() > 0 {
        lemma_enc_i16s_len(s.drop_last());
        lemma_auto_spec_u16_to_from_le_bytes();
    }
}

pub proof fn lemma_enc_u32s_len(s: Seq<u32>)
    ensures
        enc_u32s(s).len() == 4 * s.len(),
    decreases s,
{
    if s.len() > 0 {
        lemma_enc_u32s_len(s.drop_last());
        lemma_auto_spec_u32_to_from_le_bytes();
    }
}

pub proof fn lemma_enc_i32s_len(s: Seq<i32>)
    ensures
        enc_i32s(s).len() == 4 * s.len(),
    decreases s,
{
    if s.len() > 0 {
        lemma_enc_i32s_len(s.drop_last());
        lemma_auto_spec_u32_to_from_le_bytes();
    }
}

pub proof fn lemma_enc_u64s_len(s: Seq<u64>)
    ensures
        enc_u64s(s).len() == 8 * s.len(),
    decreases s,
{
    if s.len() > 0 {
        lemma_enc_u64s_len(s.drop_last());
        lemma_auto_spec_u64_to_from_le_bytes();
    }
}

pub proof fn lemma_enc_i64s_len(s: Seq<i64>)
    ensures
        enc_i64s(s).len() == 8 * s.len(),
    decreases s,
{
    if s.len() > 0 {
        lemma_enc_i64s_len(s.drop_last());
        lemma_auto_spec_u64_to_from_le_bytes();
    }
}

/// A string vector's payload size is never negative, and splits over any cut.
pub proof fn lemma_strvec_total_split(ss: Seq<Seq<u8>>, i: int)
    requires
        0 <= i <= ss.len(),
    ensures
        strvec_total(ss) == strvec_total(ss.take(i)) + strvec_total(ss.skip(i)),
        strvec_total(ss.take(i)) >= 0,
        strvec_total(ss.skip(i)) >= 0,
    decreases ss.len(),
{
    lemma_strvec_total_nonneg(ss.take(i));
    lemma_strvec_total_nonneg(ss.skip(i));
    if i == ss.len() {
        assert(ss.take(i) =~= ss);
        assert(strvec_total(ss.skip(i)) == 0);
    } else {
        lemma_strvec_total_split(ss.drop_last(), i);
        assert(ss.drop_last().take(i) =~= ss.take(i));
        assert(ss.drop_last().skip(i) =~= ss.skip(i).drop_last());
        assert(ss.skip(i).last() == ss.last());
        assert(ss.skip(i).len() > 0);
    }
}

pub proof fn lemma_strvec_total_nonneg(ss: Seq<Seq<u8>>)
    ensures
        strvec_total(ss) >= 0,
    decreases ss,
{
    if ss.len() > 0 {
        lemma_strvec_total_nonneg(ss.drop_last());
    }
}

/// Any one element of a string vector accounts for its own bytes plus one
/// NUL within the total.
pub proof fn lemma_strvec_total_first(ss: Seq<Seq<u8>>, i: int)
    requires
        0 <= i < ss.len(),
    ensures
        strvec_total(ss) >= strvec_total(ss.take(i)) + ss[i].len() + 1,
        strvec_total(ss.take(i)) >= 0,
{
    lemma_strvec_total_split(ss, i);
    lemma_strvec_total_split(ss.skip(i), 1);
    assert(strvec_total(Seq::<Seq<u8>>::empty()) == 0);
    assert(ss.skip(i).take(1).drop_last() =~= Seq::<Seq<u8>>::empty());
    assert(ss.skip(i).take(1).last() == ss[i]);
    assert(strvec_total(ss.skip(i).take(1)) == ss[i].len() + 1);
}

/// The payload of a string vector is exactly as long as its declared byte
/// budget.
pub proof fn lemma_enc_strs_len(ss: Seq<Seq<u8>>)
    ensures
        enc_strs(ss) matches Ok(p) ==> p.len() == strvec_total(ss),
    decreases ss,
{
    if ss.len() > 0 {
        lemma_enc_strs_len(ss.drop_last());
    }
}

/// An error in a prefix of a string vector is the error of the whole.
pub proof fn lemma_enc_strs_take_err(ss: Seq<Seq<u8>>, i: int, e: TsonError)
    requires
        0 <= i <= ss.len(),
        enc_strs(ss.take(i)) == Err::<Seq<u8>, TsonError>(e),
    ensures
        enc_strs(ss) == Err::<Seq<u8>, TsonError>(e),
    decreases ss.len(),
{
    if i == ss.len() {
        assert(ss.take(i) =~= ss);
    } else {
        assert(ss.drop_last().take(i) =~= ss.take(i));
        lemma_enc_strs_take_err(ss.drop_last(), i, e);
    }
}

/// A string vector's payload splits over any cut.
pub proof fn lemma_enc_strs_split(ss: Seq<Seq<u8>>, i: int)
    requires
        0 <= i <= ss.len(),
        enc_strs(ss) matches Ok(p),
    ensures
        enc_strs(ss.take(i)) matches Ok(a) && enc_strs(ss.skip(i)) matches Ok(c) && enc_strs(ss)
            == Ok::<Seq<u8>, TsonError>(a + c),
    decreases ss.len(),
{
    if i == ss.len() {
        assert(ss.take(i) =~= ss);
        let a = enc_strs(ss)->Ok_0;
        assert(a + enc_strs(ss.skip(i))->Ok_0 =~= a);
    } else {
        assert(ss.drop_last().take(i) =~= ss.take(i));
        assert(ss.drop_last().skip(i) =~= ss.skip(i).drop_last());
        lemma_enc_strs_split(ss.drop_last(), i);
        assert(ss.skip(i).last() == ss.last());
        assert(ss.skip(i).len() > 0);
        let a = enc_strs(ss.take(i))->Ok_0;
        let c0 = enc_strs(ss.skip(i).drop_last())->Ok_0;
        assert(a + c0 + ss.last() + seq![0u8] =~= a + (c0 + ss.last() + seq![0u8]));
    }
}

/// An error in a prefix of a list is the error of the whole.
pub proof fn lemma_enc_items_take_err(l: Seq<ValueModel>, i: int, e: TsonError)
    requires
        0 <= i <= l.len(),
        enc_items(l.take(i)) == Err::<Seq<u8>, TsonError>(e),
    ensures
        enc_items(l) == Err::<Seq<u8>, TsonError>(e),
    decreases l.len(),
{
    if i == l.len() {
        assert(l.take(i) =~= l);
    } else {
        assert(l.drop_last().take(i) =~= l.take(i));
        lemma_enc_items_take_err(l.drop_last(), i, e);
    }
}

/// A list's encoded elements split over any cut.
pub proof fn lemma_enc_items_split(l: Seq<ValueModel>, i: int)
    requires
        0 <= i <= l.len(),
        enc_items(l) matches Ok(p),
    ensures
        enc_items(l.take(i)) matches Ok(a) && enc_items(l.skip(i)) matches Ok(c) && enc_items(l)
            == Ok::<Seq<u8>, TsonError>(a + c),
    decreases l.len(),
{
    if i == l.len() {
        assert(l.take(i) =~= l);
        let a = enc_items(l)->Ok_0;
        assert(a + enc_items(l.skip(i))->Ok_0 =~= a);
    } else {
        assert(l.drop_last().take(i) =~= l.take(i));
        assert(l.drop_last().skip(i) =~= l.skip(i).drop_last());
        lemma_enc_items_split(l.drop_last(), i);
        assert(l.skip(i).last() == l.last());
        assert(l.skip(i).len() > 0);
        let a = enc_items(l.take(i))->Ok_0;
        let c0 = enc_items(l.skip(i).drop_last())->Ok_0;
        let b = enc_value(l.last())->Ok_0;
        assert(a + c0 + b =~= a + (c0 + b));
    }
}

/// An error in a prefix of a map's pairs is the error of the whole.
pub proof fn lemma_enc_pairs_take_err(ps: Seq<(Seq<u8>, ValueModel)>, i: int, e: TsonError)
    requires
        0 <= i <= ps.len(),
        enc_pairs(ps.take(i)) == Err::<Seq<u8>, TsonError>(e),
    ensures
        enc_pairs(ps) == Err::<Seq<u8>, TsonError>(e),
    decreases ps.len(),
{
    if i == ps.len() {
        assert(ps.take(i) =~= ps);
    } else {
        assert(ps.drop_last().take(i) =~= ps.take(i));
        lemma_enc_pairs_take_err(ps.drop_last(), i, e);
    }
}

/// A map's encoded pairs split over any cut.
pub proof fn lemma_enc_pairs_split(ps: Seq<(Seq<u8>, ValueModel)>, i: int)
    requires
        0 <= i <= ps.len(),
        enc_pairs(ps) matches Ok(p),
    ensures
        enc_pairs(ps.take(i)) matches Ok(a) && enc_pairs(ps.skip(i)) matches Ok(c) && enc_pairs(ps)
            == Ok::<Seq<u8>, TsonError>(a + c),
    decreases ps.len(),
{
    if i == ps.len() {
        assert(ps.take(i) =~= ps);
        let a = enc_pairs(ps)->Ok_0;
        assert(a + enc_pairs(ps.skip(i))->Ok_0 =~= a);
    } else {
        assert(ps.drop_last().take(i) =~= ps.take(i));
        assert(ps.drop_last().skip(i) =~= ps.skip(i).drop_last());
        lemma_enc_pairs_split(ps.drop_last(), i);
        assert(ps.skip(i).last() == ps.last());
        assert(ps.skip(i).len() > 0);
        let a = enc_pairs(ps.take(i))->Ok_0;
        let c0 = enc_pairs(ps.skip(i).drop_last())->Ok_0;
        let b = enc_value(ps.last().1)->Ok_0;
        assert(a + c0 + seq![TAG_STRING] + ps.last().0 + seq![0u8] + b =~= a + (c0 + seq![
            TAG_STRING,
        ] + ps.last().0 + seq![0u8] + b));
    }
}


// ---------------------------------------------------------------------------
// The executable encoder.
// ---------------------------------------------------------------------------

/// The encoder: one recursive traversal of a value, run against an abstract
/// sink. `encode` runs it twice — count, then materialize.
pub struct RSerializer {}

impl RSerializer {
    pub fn new() -> (r: RSerializer) {
        RSerializer {  }
    }

    /// Emit a 4-byte length field, refusing counts over `MAX_LIST_LENGTH`
    /// before anything is written.
    fn add_len<W: Writer>(&self, buf: &mut W, len: usize) -> (r: Result<(), TsonError>)
        requires
            old(buf).inv(),
        ensures
            final(buf).inv(),
            final(buf).total() == old(buf).total(),
            match r {
                Ok(()) => len <= MAX_LIST_LENGTH && final(buf).out() == old(buf).out()
                    + spec_u32_to_le_bytes(len as u32),
                Err(e) => e == TsonError::TooLarge && final(buf).out() == old(buf).out() && (len
                    > MAX_LIST_LENGTH || (!old(buf).total() && old(buf).out().len() + 4
                    > usize::MAX)),
            },
    {
        if len > MAX_LIST_LENGTH {
            return Err(TsonError::TooLarge);
        }
        proof {
            lemma_auto_spec_u32_to_from_le_bytes();
            assert(spec_u32_to_le_bytes(len as u32).len() == 4);
        }
        buf.add_u32(len as u32)
    }

    /// Emit a NUL-terminated string (no tag), refusing one that is not
    /// acceptable text before anything is written.
    fn add_cstring<W: Writer>(&self, buf: &mut W, value: &[u8]) -> (r: Result<(), TsonError>)
        requires
            old(buf).inv(),
        ensures
            final(buf).inv(),
            final(buf).total() == old(buf).total(),
            match r {
                Ok(()) => valid_text(value@) && final(buf).out() == old(buf).out() + value@
                    + seq![0u8],
                Err(e) => (e == TsonError::InvalidString && !valid_text(value@)) || (e
                    == TsonError::TooLarge && !old(buf).total() && old(buf).out().len()
                    + value@.len() + 1 > usize::MAX),
            },
    {
        let ghost out0 = buf.out();
        match check_text(value) {
            Err(e) => {
                return Err(e);
            },
            Ok(()) => {},
        }
        match buf.put_slice(value) {
            Err(e) => {
                return Err(e);
            },
            Ok(()) => {},
        }
        match buf.add_u8(0u8) {
            Err(e) => {
                return Err(e);
            },
            Ok(()) => {},
        }
        proof {
            assert(buf.out() =~= out0 + value@ + seq![0u8]);
        }
        Ok(())
    }

    /// Emit a scalar string: the `String` tag, then the NUL-terminated bytes.
    fn add_string<W: Writer>(&self, buf: &mut W, value: &[u8]) -> (r: Result<(), TsonError>)
        requires
            old(buf).inv(),
        ensures
            final(buf).inv(),
            final(buf).total() == old(buf).total(),
            match r {
                Ok(()) => valid_text(value@) && final(buf).out() == old(buf).out() + seq![
                    TAG_STRING,
                ] + value@ + seq![0u8],
                Err(e) => (e == TsonError::InvalidString && !valid_text(value@)) || (e
                    == TsonError::TooLarge && !old(buf).total() && old(buf).out().len()
                    + value@.len() + 2 > usize::MAX),
            },
    {
        let ghost out0 = buf.out();
        match buf.add_u8(TAG_STRING) {
            Err(e) => {
                return Err(e);
            },
            Ok(()) => {},
        }
        match self.add_cstring(buf, value) {
            Err(e) => {
                return Err(e);
            },
            Ok(()) => {},
        }
        proof {
            assert(buf.out() =~= out0 + seq![TAG_STRING] + value@ + seq![0u8]);
        }
        Ok(())
    }

    /// Emit a byte vector: tag, 4-byte count, then the raw bytes in one run.
    fn add_vec_u8<W: Writer>(&self, tag: u8, v: &Vec<u8>, buf: &mut W) -> (r: Result<
        (),
        TsonError,
    >)
        requires
            old(buf).inv(),
        ensures
            final(buf).inv(),
            final(buf).total() == old(buf).total(),
            match r {
                Ok(()) => v@.len() <= max_len() && final(buf).out() == old(buf).out() + seq![tag]
                    + spec_u32_to_le_bytes(v@.len() as u32) + v@,
                Err(e) => e == TsonError::TooLarge && (v@.len() > max_len() || (!old(buf).total()
                    && old(buf).out().len() + 5 + v@.len() > usize::MAX)),
            },
    {
        let ghost out0 = buf.out();
        proof {
            lemma_auto_spec_u32_to_from_le_bytes();
            assert(spec_u32_to_le_bytes(v@.len() as u32).len() == 4);
        }
        match buf.add_u8(tag) {
            Err(e) => {
                return Err(e);
            },
            Ok(()) => {},
        }
        match self.add_len(buf, v.len()) {
            Err(e) => {
                return Err(e);
            },
            Ok(()) => {},
        }
        match buf.put_slice(v.as_slice()) {
            Err(e) => {
                return Err(e);
            },
            Ok(()) => {},
        }
        proof {
            assert(buf.out() =~= out0 + seq![tag] + spec_u32_to_le_bytes(v@.len() as u32) + v@);
        }
        Ok(())
    }

    /// Emit one numeric vector of i8 elements: tag, 4-byte count, elements.
    #[verifier::loop_isolation(false)]
    fn add_vec_i8<W: Writer>(&self, tag: u8, v: &Vec<i8>, buf: &mut W) -> (r: Result<
        (),
        TsonError,
    >)
        requires
            old(buf).inv(),
        ensures
            final(buf).inv(),
            final(buf).total() == old(buf).total(),
            match r {
                Ok(()) => v@.len() <= max_len() && final(buf).out() == old(buf).out() + seq![tag]
                    + spec_u32_to_le_bytes(v@.len() as u32) + enc_i8s(v@),
                Err(e) => e == TsonError::TooLarge && (v@.len() > max_len() || (!old(buf).total()
                    && old(buf).out().len() + 5 + 1 * v@.len() > usize::MAX)),
            },
    {
        let ghost out0 = buf.out();
        let ghost tot0 = buf.total();
        match buf.add_u8(tag) {
            Err(e) => {
                return Err(e);
            },
            Ok(()) => {},
        }
        match self.add_len(buf, v.len()) {
            Err(e) => {
                return Err(e);
            },
            Ok(()) => {},
        }
        let ghost base = buf.out();
        let n = v.len();
        proof {
            lemma_auto_spec_u32_to_from_le_bytes();
            assert(spec_u32_to_le_bytes(n as u32).len() == 4);
            assert(base =~= out0 + seq![tag] + spec_u32_to_le_bytes(n as u32));
            assert(enc_i8s(v@.take(0)) == Seq::<u8>::empty());
            assert(base + Seq::<u8>::empty() =~= base);
        }
        let mut i: usize = 0;
        while i < n
            invariant
                buf.inv(),
                buf.total() == tot0,
                n == v@.len(),
                0 <= i <= n,
                n <= max_len(),
                base == out0 + seq![tag] + spec_u32_to_le_bytes(n as u32),
                base.len() == out0.len() + 5,
                buf.out() == base + enc_i8s(v@.take(i as int)),
            decreases n - i,
        {
            let ghost em = enc_i8s(v@.take(i as int));
            proof {
                lemma_enc_i8s_len(v@.take(i as int));
                assert(spec_i8_to_le_bytes(v@[i as int]).len() == 1);
                assert(em.len() == 1 * (i as int));
            }
            match buf.add_i8(v[i]) {
                Err(e) => {
                    return Err(e);
                },
                Ok(()) => {},
            }
            proof {
                assert(v@.take(i as int + 1).drop_last() =~= v@.take(i as int));
                assert(base + em + spec_i8_to_le_bytes(v@[i as int]) =~= base + enc_i8s(v@.take(i as int + 1)));
            }
            i += 1;
        }
        proof {
            assert(v@.take(n as int) =~= v@);
            assert(base + enc_i8s(v@) =~= out0 + seq![tag] + spec_u32_to_le_bytes(n as u32) + enc_i8s(
                v@,
            ));
        }
        Ok(())
    }


    /// Emit one numeric vector of u16 elements: tag, 4-byte count, elements.
    #[verifier::loop_isolation(false)]
    fn add_vec_u16<W: Writer>(&self, tag: u8, v: &Vec<u16>, buf: &mut W) -> (r: Result<
        (),
        TsonError,
    >)
        requires
            old(buf).inv(),
        ensures
            final(buf).inv(),
            final(buf).total() == old(buf).total(),
            match r {
                Ok(()) => v@.len() <= max_len() && final(buf).out() == old(buf).out() + seq![tag]
                    + spec_u32_to_le_bytes(v@.len() as u32) + enc_u16s(v@),
                Err(e) => e == TsonError::TooLarge && (v@.len() > max_len() || (!old(buf).total()
                    && old(buf).out().len() + 5 + 2 * v@.len() > usize::MAX)),
            },
    {
        let ghost out0 = buf.out();
        let ghost tot0 = buf.total();
        match buf.add_u8(tag) {
            Err(e) => {
                return Err(e);
            },
            Ok(()) => {},
        }
        match self.add_len(buf, v.len()) {
            Err(e) => {
                return Err(e);
            },
            Ok(()) => {},
        }
        let ghost base = buf.out();
        let n = v.len();
        proof {
            lemma_auto_spec_u32_to_from_le_bytes();
            assert(spec_u32_to_le_bytes(n as u32).len() == 4);
            assert(base =~= out0 + seq![tag] + spec_u32_to_le_bytes(n as u32));
            assert(enc_u16s(v@.take(0)) == Seq::<u8>::empty());
            assert(base + Seq::<u8>::empty() =~= base);
        }
        let mut i: usize = 0;
        while i < n
            invariant
                buf.inv(),
                buf.total() == tot0,
                n == v@.len(),
                0 <= i <= n,
                n <= max_len(),
                base == out0 + seq![tag] + spec_u32_to_le_bytes(n as u32),
                base.len() == out0.len() + 5,
                buf.out() == base + enc_u16s(v@.take(i as int)),
            decreases n - i,
        {
            let ghost em = enc_u16s(v@.take(i as int));
            proof {
                lemma_enc_u16s_len(v@.take(i as int));
                lemma_auto_spec_u16_to_from_le_bytes();
                assert(spec_u16_to_le_bytes(v@[i as int]).len() == 2);
                assert(em.len() == 2 * (i as int));
            }
            match buf.add_u16(v[i]) {
                Err(e) => {
                    return Err(e);
                },
                Ok(()) => {},
            }
            proof {
                assert(v@.take(i as int + 1).drop_last() =~= v@.take(i as int));
                assert(base + em + spec_u16_to_le_bytes(v@[i as int]) =~= base + enc_u16s(v@.take(i as int + 1)));
            }
            i += 1;
        }
        proof {
            assert(v@.take(n as int) =~= v@);
            assert(base + enc_u16s(v@) =~= out0 + seq![tag] + spec_u32_to_le_bytes(n as u32) + enc_u16s(
                v@,
            ));
        }
        Ok(())
    }


    /// Emit one numeric vector of i16 elements: tag, 4-byte count, elements.
    #[verifier::loop_isolation(false)]
    fn add_vec_i16<W: Writer>(&self, tag: u8, v: &Vec<i16>, buf: &mut W) -> (r: Result<
        (),
        TsonError,
    >)
        requires
            old(buf).inv(),
        ensures
            final(buf).inv(),
            final(buf).total() == old(buf).total(),
            match r {
                Ok(()) => v@.len() <= max_len() && final(buf).out() == old(buf).out() + seq![tag]
                    + spec_u32_to_le_bytes(v@.len() as u32) + enc_i16s(v@),
                Err(e) => e == TsonError::TooLarge && (v@.len() > max_len() || (!old(buf).total()
                    && old(buf).out().len() + 5 + 2 * v@.len() > usize::MAX)),
            },
    {
        let ghost out0 = buf.out();
        let ghost tot0 = buf.total();
        match buf.add_u8(tag) {
            Err(e) => {
                return Err(e);
            },
            Ok(()) => {},
        }
        match self.add_len(buf, v.len()) {
            Err(e) => {
                return Err(e);
            },
            Ok(()) => {},
        }
        let ghost base = buf.out();
        let n = v.len();
        proof {
            lemma_auto_spec_u32_to_from_le_bytes();
            assert(spec_u32_to_le_bytes(n as u32).len() == 4);
            assert(base =~= out0 + seq![tag] + spec_u32_to_le_bytes(n as u32));
            assert(enc_i16s(v@.take(0)) == Seq::<u8>::empty());
            assert(base + Seq::<u8>::empty() =~= base);
        }
        let mut i: usize = 0;
        while i < n
            invariant
                buf.inv(),
                buf.total() == tot0,
                n == v@.len(),
                0 <= i <= n,
                n <= max_len(),
                base == out0 + seq![tag] + spec_u32_to_le_bytes(n as u32),
                base.len() == out0.len() + 5,
                buf.out() == base + enc_i16s(v@.take(i as int)),
            decreases n - i,
        {
            let ghost em = enc_i16s(v@.take(i as int));
            proof {
                lemma_enc_i16s_len(v@.take(i as int));
                lemma_auto_spec_u16_to_from_le_bytes();
                assert(spec_i16_to_le_bytes(v@[i as int]).len() == 2);
                assert(em.len() == 2 * (i as int));
            }
            match buf.add_i16(v[i]) {
                Err(e) => {
                    return Err(e);
                },
                Ok(()) => {},
            }
            proof {
                assert(v@.take(i as int + 1).drop_last() =~= v@.take(i as int));
                assert(base + em + spec_i16_to_le_bytes(v@[i as int]) =~= base + enc_i16s(v@.take(i as int + 1)));
            }
            i += 1;
        }
        proof {
            assert(v@.take(n as int) =~= v@);
            assert(base + enc_i16s(v@) =~= out0 + seq![tag] + spec_u32_to_le_bytes(n as u32) + enc_i16s(
                v@,
            ));
        }
        Ok(())
    }


    /// Emit one numeric vector of u32 elements: tag, 4-byte count, elements.
    #[verifier::loop_isolation(false)]
    fn add_vec_u32<W: Writer>(&self, tag: u8, v: &Vec<u32>, buf: &mut W) -> (r: Result<
        (),
        TsonError,
    >)
        requires
            old(buf).inv(),
        ensures
            final(buf).inv(),
            final(buf).total() == old(buf).total(),
            match r {
                Ok(()) => v@.len() <= max_len() && final(buf).out() == old(buf).out() + seq![tag]
                    + spec_u32_to_le_bytes(v@.len() as u32) + enc_u32s(v@),
                Err(e) => e == TsonError::TooLarge && (v@.len() > max_len() || (!old(buf).total()
                    && old(buf).out().len() + 5 + 4 * v@.len() > usize::MAX)),
            },
    {
        let ghost out0 = buf.out();
        let ghost tot0 = buf.total();
        match buf.add_u8(tag) {
            Err(e) => {
                return Err(e);
            },
            Ok(()) => {},
        }
        match self.add_len(buf, v.len()) {
            Err(e) => {
                return Err(e);
            },
            Ok(()) => {},
        }
        let ghost base = buf.out();
        let n = v.len();
        proof {
            lemma_auto_spec_u32_to_from_le_bytes();
            assert(spec_u32_to_le_bytes(n as u32).len() == 4);
            assert(base =~= out0 + seq![tag] + spec_u32_to_le_bytes(n as u32));
            assert(enc_u32s(v@.take(0)) == Seq::<u8>::empty());
            assert(base + Seq::<u8>::empty() =~= base);
        }
        let mut i: usize = 0;
        while i < n
            invariant
                buf.inv(),
                buf.total() == tot0,
                n == v@.len(),
                0 <= i <= n,
                n <= max_len(),
                base == out0 + seq![tag] + spec_u32_to_le_bytes(n as u32),
                base.len() == out0.len() + 5,
                buf.out() == base + enc_u32s(v@.take(i as int)),
            decreases n - i,
        {
            let ghost em = enc_u32s(v@.take(i as int));
            proof {
                lemma_enc_u32s_len(v@.take(i as int));
                lemma_auto_spec_u32_to_from_le_bytes();
                assert(spec_u32_to_le_bytes(v@[i as int]).len() == 4);
                assert(em.len() == 4 * (i as int));
            }
            match buf.add_u32(v[i]) {
                Err(e) => {
                    return Err(e);
                },
                Ok(()) => {},
            }
            proof {
                assert(v@.take(i as int + 1).drop_last() =~= v@.take(i as int));
                assert(base + em + spec_u32_to_le_bytes(v@[i as int]) =~= base + enc_u32s(v@.take(i as int + 1)));
            }
            i += 1;
        }
        proof {
            assert(v@.take(n as int) =~= v@);
            assert(base + enc_u32s(v@) =~= out0 + seq![tag] + spec_u32_to_le_bytes(n as u32) + enc_u32s(
                v@,
            ));
        }
        Ok(())
    }


    /// Emit one numeric vector of i32 elements: tag, 4-byte count, elements.
    #[verifier::loop_isolation(false)]
    fn add_vec_i32<W: Writer>(&self, tag: u8, v: &Vec<i32>, buf: &mut W) -> (r: Result<
        (),
        TsonError,
    >)
        requires
            old(buf).inv(),
        ensures
            final(buf).inv(),
            final(buf).total() == old(buf).total(),
            match r {
                Ok(()) => v@.len() <= max_len() && final(buf).out() == old(buf).out() + seq![tag]
                    + spec_u32_to_le_bytes(v@.len() as u32) + enc_i32s(v@),
                Err(e) => e == TsonError::TooLarge && (v@.len() > max_len() || (!old(buf).total()
                    && old(buf).out().len() + 5 + 4 * v@.len() > usize::MAX)),
            },
    {
        let ghost out0 = buf.out();
        let ghost tot0 = buf.total();
        match buf.add_u8(tag) {
            Err(e) => {
                return Err(e);
            },
            Ok(()) => {},
        }
        match self.add_len(buf, v.len()) {
            Err(e) => {
                return Err(e);
            },
            Ok(()) => {},
        }
        let ghost base = buf.out();
        let n = v.len();
        proof {
            lemma_auto_spec_u32_to_from_le_bytes();
            assert(spec_u32_to_le_bytes(n as u32).len() == 4);
            assert(base =~= out0 + seq![tag] + spec_u32_to_le_bytes(n as u32));
            assert(enc_i32s(v@.take(0)) == Seq::<u8>::empty());
            assert(base + Seq::<u8>::empty() =~= base);
        }
        let mut i: usize = 0;
        while i < n
            invariant
                buf.inv(),
                buf.total() == tot0,
                n == v@.len(),
                0 <= i <= n,
                n <= max_len(),
                base == out0 + seq![tag] + spec_u32_to_le_bytes(n as u32),
                base.len() == out0.len() + 5,
                buf.out() == base + enc_i32s(v@.take(i as int)),
            decreases n - i,
        {
            let ghost em = enc_i32s(v@.take(i as int));
            proof {
                lemma_enc_i32s_len(v@.take(i as int));
                lemma_auto_spec_u32_to_from_le_bytes();
                assert(spec_i32_to_le_bytes(v@[i as int]).len() == 4);
                assert(em.len() == 4 * (i as int));
            }
            match buf.add_i32(v[i]) {
                Err(e) => {
                    return Err(e);
                },
                Ok(()) => {},
            }
            proof {
                assert(v@.take(i as int + 1).drop_last() =~= v@.take(i as int));
                assert(base + em + spec_i32_to_le_bytes(v@[i as int]) =~= base + enc_i32s(v@.take(i as int + 1)));
            }
            i += 1;
        }
        proof {
            assert(v@.take(n as int) =~= v@);
            assert(base + enc_i32s(v@) =~= out0 + seq![tag] + spec_u32_to_le_bytes(n as u32) + enc_i32s(
                v@,
            ));
        }
        Ok(())
    }


    /// Emit one numeric vector of u64 elements: tag, 4-byte count, elements.
    #[verifier::loop_isolation(false)]
    fn add_vec_u64<W: Writer>(&self, tag: u8, v: &Vec<u64>, buf: &mut W) -> (r: Result<
        (),
        TsonError,
    >)
        requires
            old(buf).inv(),
        ensures
            final(buf).inv(),
            final(buf).total() == old(buf).total(),
            match r {
                Ok(()) => v@.len() <= max_len() && final(buf).out() == old(buf).out() + seq![tag]
                    + spec_u32_to_le_bytes(v@.len() as u32) + enc_u64s(v@),
                Err(e) => e == TsonError::TooLarge && (v@.len() > max_len() || (!old(buf).total()
                    && old(buf).out().len() + 5 + 8 * v@.len() > usize::MAX)),
            },
    {
        let ghost out0 = buf.out();
        let ghost tot0 = buf.total();
        match buf.add_u8(tag) {
            Err(e) => {
                return Err(e);
            },
            Ok(()) => {},
        }
        match self.add_len(buf, v.len()) {
            Err(e) => {
                return Err(e);
            },
            Ok(()) => {},
        }
        let ghost base = buf.out();
        let n = v.len();
        proof {
            lemma_auto_spec_u32_to_from_le_bytes();
            assert(spec_u32_to_le_bytes(n as u32).len() == 4);
            assert(base =~= out0 + seq![tag] + spec_u32_to_le_bytes(n as u32));
            assert(enc_u64s(v@.take(0)) == Seq::<u8>::empty());
            assert(base + Seq::<u8>::empty() =~= base);
        }
        let mut i: usize = 0;
        while i < n
            invariant
                buf.inv(),
                buf.total() == tot0,
                n == v@.len(),
                0 <= i <= n,
                n <= max_len(),
                base == out0 + seq![tag] + spec_u32_to_le_bytes(n as u32),
                base.len() == out0.len() + 5,
                buf.out() == base + enc_u64s(v@.take(i as int)),
            decreases n - i,
        {
            let ghost em = enc_u64s(v@.take(i as int));
            proof {
                lemma_enc_u64s_len(v@.take(i as int));
                lemma_auto_spec_u64_to_from_le_bytes();
                assert(spec_u64_to_le_bytes(v@[i as int]).len() == 8);
                assert(em.len() == 8 * (i as int));
            }
            match buf.add_u64(v[i]) {
                Err(e) => {
                    return Err(e);
                },
                Ok(()) => {},
            }
            proof {
                assert(v@.take(i as int + 1).drop_last() =~= v@.take(i as int));
                assert(base + em + spec_u64_to_le_bytes(v@[i as int]) =~= base + enc_u64s(v@.take(i as int + 1)));
            }
            i += 1;
        }
        proof {
            assert(v@.take(n as int) =~= v@);
            assert(base + enc_u64s(v@) =~= out0 + seq![tag] + spec_u32_to_le_bytes(n as u32) + enc_u64s(
                v@,
            ));
        }
        Ok(())
    }


    /// Emit one numeric vector of i64 elements: tag, 4-byte count, elements.
    #[verifier::loop_isolation(false)]
    fn add_vec_i64<W: Writer>(&self, tag: u8, v: &Vec<i64>, buf: &mut W) -> (r: Result<
        (),
        TsonError,
    >)
        requires
            old(buf).inv(),
        ensures
            final(buf).inv(),
            final(buf).total() == old(buf).total(),
            match r {
                Ok(()) => v@.len() <= max_len() && final(buf).out() == old(buf).out() + seq![tag]
                    + spec_u32_to_le_bytes(v@.len() as u32) + enc_i64s(v@),
                Err(e) => e == TsonError::TooLarge && (v@.len() > max_len() || (!old(buf).total()
                    && old(buf).out().len() + 5 + 8 * v@.len() > usize::MAX)),
            },
    {
        let ghost out0 = buf.out();
        let ghost tot0 = buf.total();
        match buf.add_u8(tag) {
            Err(e) => {
                return Err(e);
            },
            Ok(()) => {},
        }
        match self.add_len(buf, v.len()) {
            Err(e) => {
                return Err(e);
            },
            Ok(()) => {},
        }
        let ghost base = buf.out();
        let n = v.len();
        proof {
            lemma_auto_spec_u32_to_from_le_bytes();
            assert(spec_u32_to_le_bytes(n as u32).len() == 4);
            assert(base =~= out0 + seq![tag] + spec_u32_to_le_bytes(n as u32));
            assert(enc_i64s(v@.take(0)) == Seq::<u8>::empty());
            assert(base + Seq::<u8>::empty() =~= base);
        }
        let mut i: usize = 0;
        while i < n
            invariant
                buf.inv(),
                buf.total() == tot0,
                n == v@.len(),
                0 <= i <= n,
                n <= max_len(),
                base == out0 + seq![tag] + spec_u32_to_le_bytes(n as u32),
                base.len() == out0.len() + 5,
                buf.out() == base + enc_i64s(v@.take(i as int)),
            decreases n - i,
        {
            let ghost em = enc_i64s(v@.take(i as int));
            proof {
                lemma_enc_i64s_len(v@.take(i as int));
                lemma_auto_spec_u64_to_from_le_bytes();
                assert(spec_i64_to_le_bytes(v@[i as int]).len() == 8);
                assert(em.len() == 8 * (i as int));
            }
            match buf.add_i64(v[i]) {
                Err(e) => {
                    return Err(e);
                },
                Ok(()) => {},
            }
            proof {
                assert(v@.take(i as int + 1).drop_last() =~= v@.take(i as int));
                assert(base + em + spec_i64_to_le_bytes(v@[i as int]) =~= base + enc_i64s(v@.take(i as int + 1)));
            }
            i += 1;
        }
        proof {
            assert(v@.take(n as int) =~= v@);
            assert(base + enc_i64s(v@) =~= out0 + seq![tag] + spec_u32_to_le_bytes(n as u32) + enc_i64s(
                v@,
            ));
        }
        Ok(())
    }

    /// Emit one value: its tag byte, then its payload, recursively.
    #[verifier::rlimit(100)]
    #[verifier::loop_isolation(false)]
    fn add_object<W: Writer>(&self, object: &Value, buf: &mut W) -> (r: Result<(), TsonError>)
        requires
            old(buf).inv(),
        ensures
            final(buf).inv(),
            final(buf).total() == old(buf).total(),
            match r {
                Ok(()) => enc_value(object.dv()) matches Ok(b) && final(buf).out() == old(
                    buf,
                ).out() + b,
                Err(e) => {
                    ||| enc_value(object.dv()) == Err::<Seq<u8>, TsonError>(e)
                    ||| (e == TsonError::TooLarge && !old(buf).total() && (enc_value(object.dv())
                        matches Ok(b) ==> old(buf).out().len() + b.len() > usize::MAX))
                },
            },
        decreases object,
    {
        let ghost out0 = buf.out();
        let ghost tot0 = buf.total();
        let ghost m = object.dv();
        match object {
            Value::Null => {
                match buf.add_u8(TAG_NULL) {
                    Err(e) => Err(e),
                    Ok(()) => {
                        proof {
                            assert(buf.out() =~= out0 + seq![TAG_NULL]);
                        }
                        Ok(())
                    },
                }
            },
            Value::Bool(b) => {
                match buf.add_u8(TAG_BOOL) {
                    Err(e) => {
                        return Err(e);
                    },
                    Ok(()) => {},
                }
                let byte: u8 = if *b {
                    1
                } else {
                    0
                };
                match buf.add_u8(byte) {
                    Err(e) => {
                        return Err(e);
                    },
                    Ok(()) => {},
                }
                proof {
                    assert(buf.out() =~= out0 + seq![TAG_BOOL, byte]);
                }
                Ok(())
            },
            Value::Int32(x) => {
                proof {
                    crate::wire::lemma_i32_le_round_trip(*x);
                }
                match buf.add_u8(TAG_INTEGER) {
                    Err(e) => {
                        return Err(e);
                    },
                    Ok(()) => {},
                }
                match buf.add_i32(*x) {
                    Err(e) => {
                        return Err(e);
                    },
                    Ok(()) => {},
                }
                proof {
                    assert(buf.out() =~= out0 + seq![TAG_INTEGER] + spec_i32_to_le_bytes(*x));
                }
                Ok(())
            },
            Value::Float64(x) => {
                proof {
                    lemma_auto_spec_u64_to_from_le_bytes();
                    assert(spec_u64_to_le_bytes(*x).len() == 8);
                }
                match buf.add_u8(TAG_DOUBLE) {
                    Err(e) => {
                        return Err(e);
                    },
                    Ok(()) => {},
                }
                match buf.add_u64(*x) {
                    Err(e) => {
                        return Err(e);
                    },
                    Ok(()) => {},
                }
                proof {
                    assert(buf.out() =~= out0 + seq![TAG_DOUBLE] + spec_u64_to_le_bytes(*x));
                }
                Ok(())
            },
            Value::Str(s) => {
                match self.add_string(buf, s.as_slice()) {
                    Err(e) => Err(e),
                    Ok(()) => {
                        proof {
                            assert(buf.out() =~= out0 + (seq![TAG_STRING] + s@ + seq![0u8]));
                        }
                        Ok(())
                    },
                }
            },
            Value::List(l) => self.add_list(l, buf),
            Value::Mapping(ps) => self.add_map(ps, buf),
            Value::Uint8Vec(v) => {
                proof {
                    lemma_auto_spec_u32_to_from_le_bytes();
                    assert(spec_u32_to_le_bytes(v@.len() as u32).len() == 4);
                }
                match self.add_vec_u8(TAG_LIST_UINT8, v, buf) {
                    Err(e) => Err(e),
                    Ok(()) => {
                        proof {
                            assert(buf.out() =~= out0 + (seq![TAG_LIST_UINT8]
                                + spec_u32_to_le_bytes(v@.len() as u32) + v@));
                        }
                        Ok(())
                    },
                }
            },
            Value::Int8Vec(v) => {
                proof {
                    lemma_enc_i8s_len(v@);
                    lemma_auto_spec_u32_to_from_le_bytes();
                    assert(spec_u32_to_le_bytes(v@.len() as u32).len() == 4);
                }
                match self.add_vec_i8(TAG_LIST_INT8, v, buf) {
                    Err(e) => Err(e),
                    Ok(()) => {
                        proof {
                            assert(buf.out() =~= out0 + (seq![TAG_LIST_INT8]
                                + spec_u32_to_le_bytes(v@.len() as u32) + enc_i8s(v@)));
                        }
                        Ok(())
                    },
                }
            },
            Value::Uint16Vec(v) => {
                proof {
                    lemma_enc_u16s_len(v@);
                    lemma_auto_spec_u32_to_from_le_bytes();
                    assert(spec_u32_to_le_bytes(v@.len() as u32).len() == 4);
                }
                match self.add_vec_u16(TAG_LIST_UINT16, v, buf) {
                    Err(e) => Err(e),
                    Ok(()) => {
                        proof {
                            assert(buf.out() =~= out0 + (seq![TAG_LIST_UINT16]
                                + spec_u32_to_le_bytes(v@.len() as u32) + enc_u16s(v@)));
                        }
                        Ok(())
                    },
                }
            },
            Value::Int16Vec(v) => {
                proof {
                    lemma_enc_i16s_len(v@);
                    lemma_auto_spec_u32_to_from_le_bytes();
                    assert(spec_u32_to_le_bytes(v@.len() as u32).len() == 4);
                }
                match self.add_vec_i16(TAG_LIST_INT16, v, buf) {
                    Err(e) => Err(e),
                    Ok(()) => {
                        proof {
                            assert(buf.out() =~= out0 + (seq![TAG_LIST_INT16]
                                + spec_u32_to_le_bytes(v@.len() as u32) + enc_i16s(v@)));
                        }
                        Ok(())
                    },
                }
            },
            Value::Uint32Vec(v) => {
                proof {
                    lemma_enc_u32s_len(v@);
                    lemma_auto_spec_u32_to_from_le_bytes();
                    assert(spec_u32_to_le_bytes(v@.len() as u32).len() == 4);
                }
                match self.add_vec_u32(TAG_LIST_UINT32, v, buf) {
                    Err(e) => Err(e),
                    Ok(()) => {
                        proof {
                            assert(buf.out() =~= out0 + (seq![TAG_LIST_UINT32]
                                + spec_u32_to_le_bytes(v@.len() as u32) + enc_u32s(v@)));
                        }
                        Ok(())
                    },
                }
            },
            Value::Int32Vec(v) => {
                proof {
                    lemma_enc_i32s_len(v@);
                    lemma_auto_spec_u32_to_from_le_bytes();
                    assert(spec_u32_to_le_bytes(v@.len() as u32).len() == 4);
                }
                match self.add_vec_i32(TAG_LIST_INT32, v, buf) {
                    Err(e) => Err(e),
                    Ok(()) => {
                        proof {
                            assert(buf.out() =~= out0 + (seq![TAG_LIST_INT32]
                                + spec_u32_to_le_bytes(v@.len() as u32) + enc_i32s(v@)));
                        }
                        Ok(())
                    },
                }
            },
            Value::Int64Vec(v) => {
                proof {
                    lemma_enc_i64s_len(v@);
                    lemma_auto_spec_u32_to_from_le_bytes();
                    assert(spec_u32_to_le_bytes(v@.len() as u32).len() == 4);
                }
                match self.add_vec_i64(TAG_LIST_INT64, v, buf) {
                    Err(e) => Err(e),
                    Ok(()) => {
                        proof {
                            assert(buf.out() =~= out0 + (seq![TAG_LIST_INT64]
                                + spec_u32_to_le_bytes(v@.len() as u32) + enc_i64s(v@)));
                        }
                        Ok(())
                    },
                }
            },
            Value::Uint64Vec(v) => {
                proof {
                    lemma_enc_u64s_len(v@);
                    lemma_auto_spec_u32_to_from_le_bytes();
                    assert(spec_u32_to_le_bytes(v@.len() as u32).len() == 4);
                }
                match self.add_vec_u64(TAG_LIST_UINT64, v, buf) {
                    Err(e) => Err(e),
                    Ok(()) => {
                        proof {
                            assert(buf.out() =~= out0 + (seq![TAG_LIST_UINT64]
                                + spec_u32_to_le_bytes(v@.len() as u32) + enc_u64s(v@)));
                        }
                        Ok(())
                    },
                }
            },
            Value::Float32Vec(v) => {
                proof {
                    lemma_enc_u32s_len(v@);
                    lemma_auto_spec_u32_to_from_le_bytes();
                    assert(spec_u32_to_le_bytes(v@.len() as u32).len() == 4);
                }
                match self.add_vec_u32(TAG_LIST_FLOAT32, v, buf) {
                    Err(e) => Err(e),
                    Ok(()) => {
                        proof {
                            assert(buf.out() =~= out0 + (seq![TAG_LIST_FLOAT32]
                                + spec_u32_to_le_bytes(v@.len() as u32) + enc_u32s(v@)));
                        }
                        Ok(())
                    },
                }
            },
            Value::Float64Vec(v) => {
                proof {
                    lemma_enc_u64s_len(v@);
                    lemma_auto_spec_u32_to_from_le_bytes();
                    assert(spec_u32_to_le_bytes(v@.len() as u32).len() == 4);
                }
                match self.add_vec_u64(TAG_LIST_FLOAT64, v, buf) {
                    Err(e) => Err(e),
                    Ok(()) => {
                        proof {
                            assert(buf.out() =~= out0 + (seq![TAG_LIST_FLOAT64]
                                + spec_u32_to_le_bytes(v@.len() as u32) + enc_u64s(v@)));
                        }
                        Ok(())
                    },
                }
            },
            Value::StringVec(ss) => self.add_strvec(ss, buf),
        }
    }


    /// Emit one list value.
    #[verifier::rlimit(100)]
    #[verifier::loop_isolation(false)]
    fn add_list<W: Writer>(&self, l: &Vec<Value>, buf: &mut W) -> (r: Result<(), TsonError>)
        requires
            old(buf).inv(),
        ensures
            final(buf).inv(),
            final(buf).total() == old(buf).total(),
            match r {
                Ok(()) => enc_value(ValueModel::List(dv_seq(l@))) matches Ok(b) && final(buf).out() == old(
                    buf,
                ).out() + b,
                Err(e) => {
                    ||| enc_value(ValueModel::List(dv_seq(l@))) == Err::<Seq<u8>, TsonError>(e)
                    ||| (e == TsonError::TooLarge && !old(buf).total() && (enc_value(ValueModel::List(dv_seq(l@)))
                        matches Ok(b) ==> old(buf).out().len() + b.len() > usize::MAX))
                },
            },
        decreases l,
    {
        let ghost out0 = buf.out();
        let ghost tot0 = buf.total();
        let ghost m = ValueModel::List(dv_seq(l@));

                proof {
                    lemma_dv_seq_len(l@);
                }
                let ghost ms = dv_seq(l@);
                proof {
                    lemma_auto_spec_u32_to_from_le_bytes();
                    assert(spec_u32_to_le_bytes(ms.len() as u32).len() == 4);
                }
                match buf.add_u8(TAG_LIST) {
                    Err(e) => {
                        return Err(e);
                    },
                    Ok(()) => {},
                }
                match self.add_len(buf, l.len()) {
                    Err(e) => {
                        return Err(e);
                    },
                    Ok(()) => {},
                }
                let n = l.len();
                let ghost base = buf.out();
                proof {
                    lemma_auto_spec_u32_to_from_le_bytes();
                    assert(spec_u32_to_le_bytes(n as u32).len() == 4);
                    assert(base =~= out0 + seq![TAG_LIST] + spec_u32_to_le_bytes(n as u32));
                    assert(enc_items(ms.take(0)) == Ok::<Seq<u8>, TsonError>(Seq::<u8>::empty()));
                    assert(buf.out() =~= base + Seq::<u8>::empty());
                }
                let mut i: usize = 0;
                while i < n
                    invariant
                        buf.inv(),
                        buf.total() == tot0,
                        0 <= i <= n,
                        enc_items(ms.take(i as int)) matches Ok(em) && buf.out() == base + em,
                    decreases n - i,
                {
                    let ghost em = enc_items(ms.take(i as int))->Ok_0;
                    let child = &l[i];
                    proof {
                        assert(ms[i as int] == l@[i as int].dv());
                    }
                    match self.add_object(child, buf) {
                        Err(e) => {
                            proof {
                                let mi = ms[i as int];
                                assert(ms.take(i as int + 1).drop_last() =~= ms.take(i as int));
                                if enc_value(mi) == Err::<Seq<u8>, TsonError>(e) {
                                    assert(enc_items(ms.take(i as int + 1)) == Err::<
                                        Seq<u8>,
                                        TsonError,
                                    >(e));
                                    lemma_enc_items_take_err(ms, i as int + 1, e);
                                } else {
                                    if enc_value(m) is Ok {
                                        let b = enc_value(m)->Ok_0;
                                        lemma_enc_items_split(ms, i as int + 1);
                                        let a2 = enc_items(ms.take(i as int + 1))->Ok_0;
                                        let c2 = enc_items(ms.skip(i as int + 1))->Ok_0;
                                        let cb = enc_value(mi)->Ok_0;
                                        assert(a2 =~= em + cb);
                                        assert(b =~= seq![TAG_LIST] + spec_u32_to_le_bytes(
                                            n as u32,
                                        ) + (a2 + c2));
                                        assert(b.len() >= 5 + em.len() + cb.len());
                                    }
                                }
                            }
                            return Err(e);
                        },
                        Ok(()) => {},
                    }
                    proof {
                        let mi = ms[i as int];
                        let cb = enc_value(mi)->Ok_0;
                        assert(ms.take(i as int + 1).drop_last() =~= ms.take(i as int));
                        assert(enc_items(ms.take(i as int + 1)) == Ok::<Seq<u8>, TsonError>(
                            em + cb,
                        ));
                        assert(base + em + cb =~= base + (em + cb));
                    }
                    i += 1;
                }
                proof {
                    assert(ms.take(n as int) =~= ms);
                    let body = enc_items(ms)->Ok_0;
                    assert(enc_value(m) == Ok::<Seq<u8>, TsonError>(
                        seq![TAG_LIST] + spec_u32_to_le_bytes(n as u32) + body,
                    ));
                    assert(base + body =~= out0 + (seq![TAG_LIST] + spec_u32_to_le_bytes(n as u32)
                        + body));
                }
                Ok(())
            
    }

    /// Emit one map value.
    #[verifier::rlimit(100)]
    #[verifier::loop_isolation(false)]
    fn add_map<W: Writer>(&self, ps: &Vec<(Vec<u8>, Value)>, buf: &mut W) -> (r: Result<(), TsonError>)
        requires
            old(buf).inv(),
        ensures
            final(buf).inv(),
            final(buf).total() == old(buf).total(),
            match r {
                Ok(()) => enc_value(ValueModel::Mapping(dv_pairs(ps@))) matches Ok(b) && final(buf).out() == old(
                    buf,
                ).out() + b,
                Err(e) => {
                    ||| enc_value(ValueModel::Mapping(dv_pairs(ps@))) == Err::<Seq<u8>, TsonError>(e)
                    ||| (e == TsonError::TooLarge && !old(buf).total() && (enc_value(ValueModel::Mapping(dv_pairs(ps@)))
                        matches Ok(b) ==> old(buf).out().len() + b.len() > usize::MAX))
                },
            },
        decreases ps,
    {
        let ghost out0 = buf.out();
        let ghost tot0 = buf.total();
        let ghost m = ValueModel::Mapping(dv_pairs(ps@));

                proof {
                    lemma_dv_pairs_len(ps@);
                }
                let ghost mps = dv_pairs(ps@);
                proof {
                    lemma_auto_spec_u32_to_from_le_bytes();
                    assert(spec_u32_to_le_bytes(mps.len() as u32).len() == 4);
                }
                match buf.add_u8(TAG_MAP) {
                    Err(e) => {
                        return Err(e);
                    },
                    Ok(()) => {},
                }
                match self.add_len(buf, ps.len()) {
                    Err(e) => {
                        return Err(e);
                    },
                    Ok(()) => {},
                }
                let n = ps.len();
                let ghost base = buf.out();
                proof {
                    lemma_auto_spec_u32_to_from_le_bytes();
                    assert(spec_u32_to_le_bytes(n as u32).len() == 4);
                    assert(base =~= out0 + seq![TAG_MAP] + spec_u32_to_le_bytes(n as u32));
                    assert(enc_pairs(mps.take(0)) == Ok::<Seq<u8>, TsonError>(Seq::<u8>::empty()));
                    assert(buf.out() =~= base + Seq::<u8>::empty());
                }
                let mut i: usize = 0;
                while i < n
                    invariant
                        buf.inv(),
                        buf.total() == tot0,
                        0 <= i <= n,
                        enc_pairs(mps.take(i as int)) matches Ok(em) && buf.out() == base + em,
                    decreases n - i,
                {
                    let ghost em = enc_pairs(mps.take(i as int))->Ok_0;
                    let pair = &ps[i];
                    proof {
                        assert(mps[i as int] == (ps@[i as int].0@, ps@[i as int].1.dv()));
                    }
                    let ghost k = mps[i as int].0;
                    let ghost mv = mps[i as int].1;
                    match self.add_string(buf, pair.0.as_slice()) {
                        Err(e) => {
                            proof {
                                assert(mps.take(i as int + 1).drop_last() =~= mps.take(i as int));
                                if e == TsonError::InvalidString && !valid_text(k) {
                                    assert(enc_pairs(mps.take(i as int + 1)) == Err::<
                                        Seq<u8>,
                                        TsonError,
                                    >(e));
                                    lemma_enc_pairs_take_err(mps, i as int + 1, e);
                                } else {
                                    if enc_value(m) is Ok {
                                        let b = enc_value(m)->Ok_0;
                                        lemma_enc_pairs_split(mps, i as int + 1);
                                        let a2 = enc_pairs(mps.take(i as int + 1))->Ok_0;
                                        let c2 = enc_pairs(mps.skip(i as int + 1))->Ok_0;
                                        let vb = enc_value(mv)->Ok_0;
                                        assert(a2 =~= em + seq![TAG_STRING] + k + seq![0u8] + vb);
                                        assert(b =~= seq![TAG_MAP] + spec_u32_to_le_bytes(n as u32)
                                            + (a2 + c2));
                                        assert(b.len() >= 5 + em.len() + k.len() + 2);
                                    }
                                }
                            }
                            return Err(e);
                        },
                        Ok(()) => {},
                    }
                    match self.add_object(&pair.1, buf) {
                        Err(e) => {
                            proof {
                                assert(mps.take(i as int + 1).drop_last() =~= mps.take(i as int));
                                if enc_value(mv) == Err::<Seq<u8>, TsonError>(e) {
                                    assert(enc_pairs(mps.take(i as int + 1)) == Err::<
                                        Seq<u8>,
                                        TsonError,
                                    >(e));
                                    lemma_enc_pairs_take_err(mps, i as int + 1, e);
                                } else {
                                    if enc_value(m) is Ok {
                                        let b = enc_value(m)->Ok_0;
                                        lemma_enc_pairs_split(mps, i as int + 1);
                                        let a2 = enc_pairs(mps.take(i as int + 1))->Ok_0;
                                        let c2 = enc_pairs(mps.skip(i as int + 1))->Ok_0;
                                        let vb = enc_value(mv)->Ok_0;
                                        assert(a2 =~= em + seq![TAG_STRING] + k + seq![0u8] + vb);
                                        assert(b =~= seq![TAG_MAP] + spec_u32_to_le_bytes(n as u32)
                                            + (a2 + c2));
                                        assert(b.len() >= 5 + em.len() + k.len() + 2 + vb.len());
                                    }
                                }
                            }
                            return Err(e);
                        },
                        Ok(()) => {},
                    }
                    proof {
                        let vb = enc_value(mv)->Ok_0;
                        assert(mps.take(i as int + 1).drop_last() =~= mps.take(i as int));
                        assert(enc_pairs(mps.take(i as int + 1)) == Ok::<Seq<u8>, TsonError>(
                            em + seq![TAG_STRING] + k + seq![0u8] + vb,
                        ));
                        assert(base + em + (seq![TAG_STRING] + k + seq![0u8]) + vb =~= base + (em
                            + seq![TAG_STRING] + k + seq![0u8] + vb));
                    }
                    i += 1;
                }
                proof {
                    assert(mps.take(n as int) =~= mps);
                    let body = enc_pairs(mps)->Ok_0;
                    assert(enc_value(m) == Ok::<Seq<u8>, TsonError>(
                        seq![TAG_MAP] + spec_u32_to_le_bytes(n as u32) + body,
                    ));
                    assert(base + body =~= out0 + (seq![TAG_MAP] + spec_u32_to_le_bytes(n as u32)
                        + body));
                }
                Ok(())
            
    }

    /// Emit one string vector value.
    #[verifier::rlimit(100)]
    #[verifier::loop_isolation(false)]
    fn add_strvec<W: Writer>(&self, ss: &Vec<Vec<u8>>, buf: &mut W) -> (r: Result<(), TsonError>)
        requires
            old(buf).inv(),
        ensures
            final(buf).inv(),
            final(buf).total() == old(buf).total(),
            match r {
                Ok(()) => enc_value(ValueModel::StringVec(dv_strs(ss@))) matches Ok(b) && final(buf).out() == old(
                    buf,
                ).out() + b,
                Err(e) => {
                    ||| enc_value(ValueModel::StringVec(dv_strs(ss@))) == Err::<Seq<u8>, TsonError>(e)
                    ||| (e == TsonError::TooLarge && !old(buf).total() && (enc_value(ValueModel::StringVec(dv_strs(ss@)))
                        matches Ok(b) ==> old(buf).out().len() + b.len() > usize::MAX))
                },
            },
        decreases ss,
    {
        let ghost out0 = buf.out();
        let ghost tot0 = buf.total();
        let ghost m = ValueModel::StringVec(dv_strs(ss@));

                let ghost mss = dv_strs(ss@);
                let n = ss.len();
                let mut total: usize = 0;
                let mut i: usize = 0;
                while i < n
                    invariant
                        0 <= i <= n,
                        total == strvec_total(mss.take(i as int)),
                    decreases n - i,
                {
                    proof {
                        assert(mss.len() == ss@.len());
                        assert(mss[i as int] == ss@[i as int]@);
                        lemma_strvec_total_first(mss, i as int);
                        assert(strvec_total(mss) >= total + mss[i as int].len() + 1);
                    }
                    let sl = ss[i].len();
                    let step = match sl.checked_add(1) {
                        Some(s) => s,
                        None => {
                            return Err(TsonError::TooLarge);
                        },
                    };
                    total = match total.checked_add(step) {
                        Some(t) => t,
                        None => {
                            return Err(TsonError::TooLarge);
                        },
                    };
                    proof {
                        assert(mss.take(i as int + 1).drop_last() =~= mss.take(i as int));
                        assert(mss.take(i as int + 1).last() == mss[i as int]);
                    }
                    i += 1;
                }
                proof {
                    assert(mss.take(n as int) =~= mss);
                }
                // total == strvec_total(mss)
                proof {
                    lemma_auto_spec_u32_to_from_le_bytes();
                    assert(spec_u32_to_le_bytes(strvec_total(mss) as u32).len() == 4);
                }
                match buf.add_u8(TAG_LIST_STRING) {
                    Err(e) => {
                        proof {
                            lemma_enc_strs_len(mss);
                        }
                        return Err(e);
                    },
                    Ok(()) => {},
                }
                match self.add_len(buf, total) {
                    Err(e) => {
                        proof {
                            lemma_enc_strs_len(mss);
                        }
                        return Err(e);
                    },
                    Ok(()) => {},
                }
                let ghost base = buf.out();
                proof {
                    lemma_auto_spec_u32_to_from_le_bytes();
                    assert(spec_u32_to_le_bytes(total as u32).len() == 4);
                    assert(base =~= out0 + seq![TAG_LIST_STRING] + spec_u32_to_le_bytes(
                        total as u32,
                    ));
                    assert(enc_strs(mss.take(0)) == Ok::<Seq<u8>, TsonError>(Seq::<u8>::empty()));
                    assert(buf.out() =~= base + Seq::<u8>::empty());
                }
                let mut i: usize = 0;
                while i < n
                    invariant
                        buf.inv(),
                        buf.total() == tot0,
                        0 <= i <= n,
                        enc_strs(mss.take(i as int)) matches Ok(em) && buf.out() == base + em,
                    decreases n - i,
                {
                    let ghost em = enc_strs(mss.take(i as int))->Ok_0;
                    proof {
                        assert(mss[i as int] == ss@[i as int]@);
                        lemma_enc_strs_len(mss.take(i as int));
                    }
                    match self.add_cstring(buf, ss[i].as_slice()) {
                        Err(e) => {
                            proof {
                                assert(mss.take(i as int + 1).drop_last() =~= mss.take(i as int));
                                if e == TsonError::InvalidString && !valid_text(mss[i as int]) {
                                    assert(enc_strs(mss.take(i as int + 1)) == Err::<
                                        Seq<u8>,
                                        TsonError,
                                    >(e));
                                    lemma_enc_strs_take_err(mss, i as int + 1, e);
                                } else {
                                    if enc_value(m) is Ok {
                                        let b = enc_value(m)->Ok_0;
                                        lemma_enc_strs_len(mss);
                                        lemma_strvec_total_first(mss, i as int);
                                        assert(strvec_total(mss) >= strvec_total(mss.take(
                                            i as int,
                                        )) + mss[i as int].len() + 1);
                                        assert(b.len() == 5 + strvec_total(mss));
                                        assert(em.len() == strvec_total(mss.take(i as int)));
                                    }
                                }
                            }
                            return Err(e);
                        },
                        Ok(()) => {},
                    }
                    proof {
                        assert(mss.take(i as int + 1).drop_last() =~= mss.take(i as int));
                        assert(enc_strs(mss.take(i as int + 1)) == Ok::<Seq<u8>, TsonError>(
                            em + mss[i as int] + seq![0u8],
                        ));
                        assert(base + em + (mss[i as int] + seq![0u8]) =~= base + (em + mss[
                            i as int
                        ] + seq![0u8]));
                        assert(buf.out() =~= base + em + (mss[i as int] + seq![0u8]));
                    }
                    i += 1;
                }
                proof {
                    assert(mss.take(n as int) =~= mss);
                    let body = enc_strs(mss)->Ok_0;
                    assert(enc_value(m) == Ok::<Seq<u8>, TsonError>(
                        seq![TAG_LIST_STRING] + spec_u32_to_le_bytes(total as u32) + body,
                    ));
                    assert(base + body =~= out0 + (seq![TAG_LIST_STRING] + spec_u32_to_le_bytes(
                        total as u32,
                    ) + body));
                }
                Ok(())
            
    }


    /// Validate one value without writing anything: report the traversal's
    /// first error, or nothing where the value is encodable. Both encoder
    /// passes run this first, so a failure never depends on the sink.
    #[verifier::rlimit(100)]
    #[verifier::loop_isolation(false)]
    fn check_object(&self, object: &Value) -> (r: Result<(), TsonError>)
        ensures
            match r {
                Ok(()) => enc_value(object.dv()) is Ok,
                Err(e) => enc_value(object.dv()) == Err::<Seq<u8>, TsonError>(e),
            },
        decreases object,
    {
        let ghost m = object.dv();
        match object {
            Value::Null => Ok(()),
            Value::Bool(_) => Ok(()),
            Value::Int32(_) => Ok(()),
            Value::Float64(_) => Ok(()),
            Value::Str(t) => {
                match check_text(t.as_slice()) {
                    Ok(()) => Ok(()),
                    Err(e) => Err(e),
                }
            },
            Value::List(l) => {
                proof {
                    lemma_dv_seq_len(l@);
                }
                let ghost ms = dv_seq(l@);
                if l.len() > MAX_LIST_LENGTH {
                    return Err(TsonError::TooLarge);
                }
                let n = l.len();
                let mut i: usize = 0;
                while i < n
                    invariant
                        0 <= i <= n,
                        enc_items(ms.take(i as int)) is Ok,
                    decreases n - i,
                {
                    proof {
                        lemma_dv_seq_len(l@);
                    }
                    match self.check_object(&l[i]) {
                        Err(e) => {
                            proof {
                                assert(ms.take(i as int + 1).drop_last() =~= ms.take(i as int));
                                assert(enc_items(ms.take(i as int + 1)) == Err::<
                                    Seq<u8>,
                                    TsonError,
                                >(e));
                                lemma_enc_items_take_err(ms, i as int + 1, e);
                            }
                            return Err(e);
                        },
                        Ok(()) => {},
                    }
                    proof {
                        assert(ms.take(i as int + 1).drop_last() =~= ms.take(i as int));
                    }
                    i += 1;
                }
                proof {
                    assert(ms.take(n as int) =~= ms);
                }
                Ok(())
            },
            Value::Mapping(ps) => {
                proof {
                    lemma_dv_pairs_len(ps@);
                }
                let ghost mps = dv_pairs(ps@);
                if ps.len() > MAX_LIST_LENGTH {
                    return Err(TsonError::TooLarge);
                }
                let n = ps.len();
                let mut i: usize = 0;
                while i < n
                    invariant
                        0 <= i <= n,
                        enc_pairs(mps.take(i as int)) is Ok,
                    decreases n - i,
                {
                    proof {
                        lemma_dv_pairs_len(ps@);
                    }
                    let pair = &ps[i];
                    match check_text(pair.0.as_slice()) {
                        Err(e) => {
                            proof {
                                assert(mps.take(i as int + 1).drop_last() =~= mps.take(i as int));
                                assert(enc_pairs(mps.take(i as int + 1)) == Err::<
                                    Seq<u8>,
                                    TsonError,
                                >(e));
                                lemma_enc_pairs_take_err(mps, i as int + 1, e);
                            }
                            return Err(e);
                        },
                        Ok(()) => {},
                    }
                    match self.check_object(&pair.1) {
                        Err(e) => {
                            proof {
                                assert(mps.take(i as int + 1).drop_last() =~= mps.take(i as int));
                                assert(enc_pairs(mps.take(i as int + 1)) == Err::<
                                    Seq<u8>,
                                    TsonError,
                                >(e));
                                lemma_enc_pairs_take_err(mps, i as int + 1, e);
                            }
                            return Err(e);
                        },
                        Ok(()) => {},
                    }
                    proof {
                        assert(mps.take(i as int + 1).drop_last() =~= mps.take(i as int));
                    }
                    i += 1;
                }
                proof {
                    assert(mps.take(n as int) =~= mps);
                }
                Ok(())
            },
            Value::Uint8Vec(v) => {
                if v.len() > MAX_LIST_LENGTH {
                    Err(TsonError::TooLarge)
                } else {
                    Ok(())
                }
            },
            Value::Int8Vec(v) => {
                if v.len() > MAX_LIST_LENGTH {
                    Err(TsonError::TooLarge)
                } else {
                    Ok(())
                }
            },
            Value::Uint16Vec(v) => {
                if v.len() > MAX_LIST_LENGTH {
                    Err(TsonError::TooLarge)
                } else {
                    Ok(())
                }
            },
            Value::Int16Vec(v) => {
                if v.len() > MAX_LIST_LENGTH {
                    Err(TsonError::TooLarge)
                } else {
                    Ok(())
                }
            },
            Value::Uint32Vec(v) => {
                if v.len() > MAX_LIST_LENGTH {
                    Err(TsonError::TooLarge)
                } else {
                    Ok(())
                }
            },
            Value::Int32Vec(v) => {
                if v.len() > MAX_LIST_LENGTH {
                    Err(TsonError::TooLarge)
                } else {
                    Ok(())
                }
            },
            Value::Int64Vec(v) => {
                if v.len() > MAX_LIST_LENGTH {
                    Err(TsonError::TooLarge)
                } else {
                    Ok(())
                }
            },
            Value::Uint64Vec(v) => {
                if v.len() > MAX_LIST_LENGTH {
                    Err(TsonError::TooLarge)
                } else {
                    Ok(())
                }
            },
            Value::Float32Vec(v) => {
                if v.len() > MAX_LIST_LENGTH {
                    Err(TsonError::TooLarge)
                } else {
                    Ok(())
                }
            },
            Value::Float64Vec(v) => {
                if v.len() > MAX_LIST_LENGTH {
                    Err(TsonError::TooLarge)
                } else {
                    Ok(())
                }
            },
            Value::StringVec(ss) => {
                let ghost mss = dv_strs(ss@);
                let n = ss.len();
                let mut total: usize = 0;
                let mut i: usize = 0;
                while i < n
                    invariant
                        0 <= i <= n,
                        total == strvec_total(mss.take(i as int)),
                    decreases n - i,
                {
                    proof {
                        assert(mss.len() == ss@.len());
                        assert(mss[i as int] == ss@[i as int]@);
                        lemma_strvec_total_first(mss, i as int);
                        assert(strvec_total(mss) >= total + mss[i as int].len() + 1);
                    }
                    let sl = ss[i].len();
                    let step = match sl.checked_add(1) {
                        Some(v) => v,
                        None => {
                            return Err(TsonError::TooLarge);
                        },
                    };
                    total = match total.checked_add(step) {
                        Some(t) => t,
                        None => {
                            return Err(TsonError::TooLarge);
                        },
                    };
                    proof {
                        assert(mss.take(i as int + 1).drop_last() =~= mss.take(i as int));
                        assert(mss.take(i as int + 1).last() == mss[i as int]);
                    }
                    i += 1;
                }
                proof {
                    assert(mss.take(n as int) =~= mss);
                }
                if total > MAX_LIST_LENGTH {
                    return Err(TsonError::TooLarge);
                }
                let mut i: usize = 0;
                while i < n
                    invariant
                        0 <= i <= n,
                        enc_strs(mss.take(i as int)) is Ok,
                        total == strvec_total(mss),
                        total <= MAX_LIST_LENGTH,
                    decreases n - i,
                {
                    proof {
                        assert(mss.len() == ss@.len());
                        assert(mss[i as int] == ss@[i as int]@);
                    }
                    match check_text(ss[i].as_slice()) {
                        Err(e) => {
                            proof {
                                assert(mss.take(i as int + 1).drop_last() =~= mss.take(i as int));
                                assert(enc_strs(mss.take(i as int + 1)) == Err::<
                                    Seq<u8>,
                                    TsonError,
                                >(e));
                                lemma_enc_strs_take_err(mss, i as int + 1, e);
                            }
                            return Err(e);
                        },
                        Ok(()) => {},
                    }
                    proof {
                        assert(mss.take(i as int + 1).drop_last() =~= mss.take(i as int));
                    }
                    i += 1;
                }
                proof {
                    assert(mss.take(n as int) =~= mss);
                }
                Ok(())
            },
        }
    }

    /// Write the version header, then the value, into any sink: the one
    /// traversal both encoder passes share.
    pub fn write<W: Writer>(&self, value: &Value, writer: &mut W) -> (r: Result<(), TsonError>)
        requires
            old(writer).inv(),
        ensures
            final(writer).inv(),
            final(writer).total() == old(writer).total(),
            match r {
                Ok(()) => enc_value(value.dv()) matches Ok(b) && final(writer).out() == old(
                    writer,
                ).out() + header_bytes() + b,
                Err(e) => {
                    ||| enc_value(value.dv()) == Err::<Seq<u8>, TsonError>(e)
                    ||| (e == TsonError::TooLarge && !old(writer).total() && enc_value(
                        value.dv(),
                    ) is Ok && (enc_value(value.dv()) matches Ok(b) ==> old(writer).out().len()
                        + header_bytes().len() + b.len() > usize::MAX))
                },
            },
    {
        let ghost out0 = writer.out();
        proof {
            lemma_version_nul_free();
        }
        match self.check_object(value) {
            Err(e) => {
                return Err(e);
            },
            Ok(()) => {},
        }
        // The value is encodable; from here only a sink that cannot hold the
        // stream can refuse, with `TooLarge`.
        let version = version_vec();
        match writer.add_u8(TAG_STRING) {
            Err(e) => {
                return Err(e);
            },
            Ok(()) => {},
        }
        match writer.put_slice(version.as_slice()) {
            Err(e) => {
                return Err(e);
            },
            Ok(()) => {},
        }
        match writer.add_u8(0u8) {
            Err(e) => {
                return Err(e);
            },
            Ok(()) => {},
        }
        proof {
            assert(writer.out() =~= out0 + header_bytes());
        }
        match self.add_object(value, writer) {
            Err(e) => {
                return Err(e);
            },
            Ok(()) => {},
        }
        proof {
            assert(writer.out() =~= out0 + header_bytes() + enc_value(value.dv())->Ok_0);
        }
        Ok(())
    }

    /// The sizing pass: the exact byte length of the encoded stream, version
    /// header included, without materializing anything.
    pub fn encoded_size(&self, value: &Value) -> (r: Result<usize, TsonError>)
        ensures
            match r {
                Ok(n) => enc_value(value.dv()) matches Ok(b) && n == header_bytes().len()
                    + b.len(),
                Err(e) => enc_failure(value.dv(), e),
            },
    {
        let mut buf = CountWriter::new();
        match self.write(value, &mut buf) {
            Ok(()) => Ok(buf.size),
            Err(e) => Err(e),
        }
    }

    /// Encode a value: size the stream exactly, allocate once, materialize.
    pub fn encode(&self, value: &Value) -> (r: Result<Vec<u8>, TsonError>)
        ensures
            match r {
                Ok(bytes) => enc_value(value.dv()) matches Ok(b) && bytes@ == header_bytes() + b,
                Err(e) => enc_failure(value.dv(), e),
            },
    {
        let size = match self.encoded_size(value) {
            Ok(n) => n,
            Err(e) => {
                return Err(e);
            },
        };
        let mut buf = BufWriter::with_capacity(size);
        match self.write(value, &mut buf) {
            Ok(()) => Ok(buf.into_vec()),
            Err(e) => {
                proof {
                    // The sizing pass proved the value encodable, and a
                    // materializing sink refuses nothing, so this branch is
                    // unreachable.
                    assert(false);
                }
                Err(e)
            },
        }
    }
}

} // verus!
