use vstd::prelude::*;
use vstd::bytes::*;
use crate::error::TsonError;
use crate::value::{ValueModel, nul_free, valid_text, strvec_total,
    strings_ok, counts_ok};
use crate::wire::{
    TAG_NULL, TAG_STRING, TAG_INTEGER, TAG_DOUBLE, TAG_BOOL, TAG_LIST, TAG_MAP, TAG_LIST_UINT8,
    TAG_LIST_INT8, TAG_LIST_UINT16, TAG_LIST_INT16, TAG_LIST_UINT32, TAG_LIST_INT32,
    TAG_LIST_INT64, TAG_LIST_UINT64, TAG_LIST_FLOAT32, TAG_LIST_FLOAT64, TAG_LIST_STRING,
    max_len, version_bytes, lemma_version_nul_free, spec_i8_to_le_bytes, spec_i16_to_le_bytes,
    spec_i32_to_le_bytes, spec_i64_to_le_bytes, lemma_i8_le_round_trip, lemma_i16_le_round_trip,
    lemma_i32_le_round_trip, lemma_i64_le_round_trip,
};
use crate::ser::{
    enc_value, enc_items, enc_pairs, enc_strs, enc_i8s, enc_u16s, enc_i16s, enc_u32s, enc_i32s,
    enc_u64s, enc_i64s, header_bytes, enc_stream, lemma_enc_items_split, lemma_enc_pairs_split,
    lemma_enc_strs_split, lemma_enc_strs_len, lemma_strvec_total_split, lemma_strvec_total_nonneg,
};
use crate::deser::{
    spec_decode, parse_obj, parse_items, parse_pairs, parse_strvec, parse_cstr, scan_cstr,
    parse_u8s, parse_i8s, parse_u16s, parse_i16s, parse_u32s, parse_i32s, parse_u64s, parse_i64s,
    is_numvec_tag, parse_numvec, known_tag, lemma_parse_obj_consumes,
    lemma_parse_cstr_shape,
};

verus! {

broadcast use vstd::seq::group_seq_axioms;

/// Scanning the image of a NUL-free string yields the raw bytes back: the
/// NUL terminator alone delimits it.
pub proof fn lemma_rt_scan_cstr(b: Seq<u8>, rest: Seq<u8>)
    requires
        nul_free(b),
    ensures
        scan_cstr(b + seq![0u8] + rest) == Ok::<(Seq<u8>, Seq<u8>), TsonError>((b, rest)),
    decreases b.len(),
{
    let s = b + seq![0u8] + rest;
    if b.len() == 0 {
        assert(s[0] == 0);
        assert(s.skip(1) =~= rest);
        assert(b =~= Seq::<u8>::empty());
    } else {
        assert(s[0] == b[0]);
        assert(s[0] != 0);
        assert(s.skip(1) =~= b.skip(1) + seq![0u8] + rest);
        lemma_rt_scan_cstr(b.skip(1), rest);
        assert(seq![b[0]] + b.skip(1) =~= b);
    }
}

/// Parsing the image of an acceptable text string yields the string back.
pub proof fn lemma_rt_cstr(b: Seq<u8>, rest: Seq<u8>)
    requires
        valid_text(b),
    ensures
        parse_cstr(b + seq![0u8] + rest) == Ok::<(Seq<u8>, Seq<u8>), TsonError>((b, rest)),
{
    lemma_rt_scan_cstr(b, rest);
}

/// The element run's image starts with its first element's bytes.
pub proof fn lemma_enc_i8s_head(xs: Seq<i8>)
    requires
        xs.len() > 0,
    ensures
        enc_i8s(xs) == spec_i8_to_le_bytes(xs[0]) + enc_i8s(xs.skip(1)),
    decreases xs.len(),
{
    if xs.len() == 1 {
        assert(xs.drop_last() =~= Seq::<i8>::empty());
        assert(enc_i8s(Seq::<i8>::empty()) == Seq::<u8>::empty());
        assert(xs.skip(1) =~= Seq::<i8>::empty());
        assert(Seq::<u8>::empty() + spec_i8_to_le_bytes(xs[0]) =~= spec_i8_to_le_bytes(xs[0]) + Seq::<u8>::empty());
    } else {
        lemma_enc_i8s_head(xs.drop_last());
        assert(xs.drop_last()[0] == xs[0]);
        assert(xs.drop_last().skip(1) =~= xs.skip(1).drop_last());
        assert(xs.skip(1).last() == xs.last());
        assert(xs.skip(1).len() > 0);
        assert(spec_i8_to_le_bytes(xs[0]) + enc_i8s(xs.skip(1).drop_last()) + spec_i8_to_le_bytes(xs.last()) =~= spec_i8_to_le_bytes(
            xs[0],
        ) + (enc_i8s(xs.skip(1).drop_last()) + spec_i8_to_le_bytes(xs.last())));
    }
}

/// Parsing the image of an element run yields the run back, leaving whatever
/// follows it untouched.
pub proof fn lemma_rt_enc_i8s(xs: Seq<i8>, extra: Seq<u8>)
    ensures
        parse_i8s(enc_i8s(xs) + extra, xs.len()) == Ok::<(Seq<i8>, Seq<u8>), TsonError>((xs, extra)),
    decreases xs.len(),
{
    if xs.len() == 0 {
        assert(enc_i8s(xs) + extra =~= extra);
        assert(parse_i8s(extra, 0nat) == Ok::<(Seq<i8>, Seq<u8>), TsonError>(
            (Seq::<i8>::empty(), extra),
        ));
        assert(xs =~= Seq::<i8>::empty());
    } else {
        lemma_enc_i8s_head(xs);
        lemma_i8_le_round_trip(xs[0]);
        assert(spec_i8_to_le_bytes(xs[0]).len() == 1);
        let s = enc_i8s(xs) + extra;
        assert(s =~= spec_i8_to_le_bytes(xs[0]) + (enc_i8s(xs.skip(1)) + extra));
        assert(s.take(1) =~= spec_i8_to_le_bytes(xs[0]));
        assert(s.skip(1) =~= enc_i8s(xs.skip(1)) + extra);
        lemma_rt_enc_i8s(xs.skip(1), extra);
        assert(seq![xs[0]] + xs.skip(1) =~= xs);
    }
}


/// The element run's image starts with its first element's bytes.
pub proof fn lemma_enc_u16s_head(xs: Seq<u16>)
    requires
        xs.len() > 0,
    ensures
        enc_u16s(xs) == spec_u16_to_le_bytes(xs[0]) + enc_u16s(xs.skip(1)),
    decreases xs.len(),
{
    if xs.len() == 1 {
        assert(xs.drop_last() =~= Seq::<u16>::empty());
        assert(enc_u16s(Seq::<u16>::empty()) == Seq::<u8>::empty());
        assert(xs.skip(1) =~= Seq::<u16>::empty());
        assert(Seq::<u8>::empty() + spec_u16_to_le_bytes(xs[0]) =~= spec_u16_to_le_bytes(xs[0]) + Seq::<u8>::empty());
    } else {
        lemma_enc_u16s_head(xs.drop_last());
        assert(xs.drop_last()[0] == xs[0]);
        assert(xs.drop_last().skip(1) =~= xs.skip(1).drop_last());
        assert(xs.skip(1).last() == xs.last());
        assert(xs.skip(1).len() > 0);
        assert(spec_u16_to_le_bytes(xs[0]) + enc_u16s(xs.skip(1).drop_last()) + spec_u16_to_le_bytes(xs.last()) =~= spec_u16_to_le_bytes(
            xs[0],
        ) + (enc_u16s(xs.skip(1).drop_last()) + spec_u16_to_le_bytes(xs.last())));
    }
}

/// Parsing the image of an element run yields the run back, leaving whatever
/// follows it untouched.
pub proof fn lemma_rt_enc_u16s(xs: Seq<u16>, extra: Seq<u8>)
    ensures
        parse_u16s(enc_u16s(xs) + extra, xs.len()) == Ok::<(Seq<u16>, Seq<u8>), TsonError>((xs, extra)),
    decreases xs.len(),
{
    if xs.len() == 0 {
        assert(enc_u16s(xs) + extra =~= extra);
        assert(parse_u16s(extra, 0nat) == Ok::<(Seq<u16>, Seq<u8>), TsonError>(
            (Seq::<u16>::empty(), extra),
        ));
        assert(xs =~= Seq::<u16>::empty());
    } else {
        lemma_enc_u16s_head(xs);
        lemma_auto_spec_u16_to_from_le_bytes();
        assert(spec_u16_to_le_bytes(xs[0]).len() == 2);
        let s = enc_u16s(xs) + extra;
        assert(s =~= spec_u16_to_le_bytes(xs[0]) + (enc_u16s(xs.skip(1)) + extra));
        assert(s.take(2) =~= spec_u16_to_le_bytes(xs[0]));
        assert(s.skip(2) =~= enc_u16s(xs.skip(1)) + extra);
        lemma_rt_enc_u16s(xs.skip(1), extra);
        assert(seq![xs[0]] + xs.skip(1) =~= xs);
    }
}


/// The element run's image starts with its first element's bytes.
pub proof fn lemma_enc_i16s_head(xs: Seq<i16>)
    requires
        xs.len() > 0,
    ensures
        enc_i16s(xs) == spec_i16_to_le_bytes(xs[0]) + enc_i16s(xs.skip(1)),
    decreases xs.len(),
{
    if xs.len() == 1 {
        assert(xs.drop_last() =~= Seq::<i16>::empty());
        assert(enc_i16s(Seq::<i16>::empty()) == Seq::<u8>::empty());
        assert(xs.skip(1) =~= Seq::<i16>::empty());
        assert(Seq::<u8>::empty() + spec_i16_to_le_bytes(xs[0]) =~= spec_i16_to_le_bytes(xs[0]) + Seq::<u8>::empty());
    } else {
        lemma_enc_i16s_head(xs.drop_last());
        assert(xs.drop_last()[0] == xs[0]);
        assert(xs.drop_last().skip(1) =~= xs.skip(1).drop_last());
        assert(xs.skip(1).last() == xs.last());
        assert(xs.skip(1).len() > 0);
        assert(spec_i16_to_le_bytes(xs[0]) + enc_i16s(xs.skip(1).drop_last()) + spec_i16_to_le_bytes(xs.last()) =~= spec_i16_to_le_bytes(
            xs[0],
        ) + (enc_i16s(xs.skip(1).drop_last()) + spec_i16_to_le_bytes(xs.last())));
    }
}

/// Parsing the image of an element run yields the run back, leaving whatever
/// follows it untouched.
pub proof fn lemma_rt_enc_i16s(xs: Seq<i16>, extra: Seq<u8>)
    ensures
        parse_i16s(enc_i16s(xs) + extra, xs.len()) == Ok::<(Seq<i16>, Seq<u8>), TsonError>((xs, extra)),
    decreases xs.len(),
{
    if xs.len() == 0 {
        assert(enc_i16s(xs) + extra =~= extra);
        assert(parse_i16s(extra, 0nat) == Ok::<(Seq<i16>, Seq<u8>), TsonError>(
            (Seq::<i16>::empty(), extra),
        ));
        assert(xs =~= Seq::<i16>::empty());
    } else {
        lemma_enc_i16s_head(xs);
        lemma_i16_le_round_trip(xs[0]);
        assert(spec_i16_to_le_bytes(xs[0]).len() == 2);
        let s = enc_i16s(xs) + extra;
        assert(s =~= spec_i16_to_le_bytes(xs[0]) + (enc_i16s(xs.skip(1)) + extra));
        assert(s.take(2) =~= spec_i16_to_le_bytes(xs[0]));
        assert(s.skip(2) =~= enc_i16s(xs.skip(1)) + extra);
        lemma_rt_enc_i16s(xs.skip(1), extra);
        assert(seq![xs[0]] + xs.skip(1) =~= xs);
    }
}


/// The element run's image starts with its first element's bytes.
pub proof fn lemma_enc_u32s_head(xs: Seq<u32>)
    requires
        xs.len() > 0,
    ensures
        enc_u32s(xs) == spec_u32_to_le_bytes(xs[0]) + enc_u32s(xs.skip(1)),
    decreases xs.len(),
{
    if xs.len() == 1 {
        assert(xs.drop_last() =~= Seq::<u32>::empty());
        assert(enc_u32s(Seq::<u32>::empty()) == Seq::<u8>::empty());
        assert(xs.skip(1) =~= Seq::<u32>::empty());
        assert(Seq::<u8>::empty() + spec_u32_to_le_bytes(xs[0]) =~= spec_u32_to_le_bytes(xs[0]) + Seq::<u8>::empty());
    } else {
        lemma_enc_u32s_head(xs.drop_last());
        assert(xs.drop_last()[0] == xs[0]);
        assert(xs.drop_last().skip(1) =~= xs.skip(1).drop_last());
        assert(xs.skip(1).last() == xs.last());
        assert(xs.skip(1).len() > 0);
        assert(spec_u32_to_le_bytes(xs[0]) + enc_u32s(xs.skip(1).drop_last()) + spec_u32_to_le_bytes(xs.last()) =~= spec_u32_to_le_bytes(
            xs[0],
        ) + (enc_u32s(xs.skip(1).drop_last()) + spec_u32_to_le_bytes(xs.last())));
    }
}

/// Parsing the image of an element run yields the run back, leaving whatever
/// follows it untouched.
pub proof fn lemma_rt_enc_u32s(xs: Seq<u32>, extra: Seq<u8>)
    ensures
        parse_u32s(enc_u32s(xs) + extra, xs.len()) == Ok::<(Seq<u32>, Seq<u8>), TsonError>((xs, extra)),
    decreases xs.len(),
{
    if xs.len() == 0 {
        assert(enc_u32s(xs) + extra =~= extra);
        assert(parse_u32s(extra, 0nat) == Ok::<(Seq<u32>, Seq<u8>), TsonError>(
            (Seq::<u32>::empty(), extra),
        ));
        assert(xs =~= Seq::<u32>::empty());
    } else {
        lemma_enc_u32s_head(xs);
        lemma_auto_spec_u32_to_from_le_bytes();
        assert(spec_u32_to_le_bytes(xs[0]).len() == 4);
        let s = enc_u32s(xs) + extra;
        assert(s =~= spec_u32_to_le_bytes(xs[0]) + (enc_u32s(xs.skip(1)) + extra));
        assert(s.take(4) =~= spec_u32_to_le_bytes(xs[0]));
        assert(s.skip(4) =~= enc_u32s(xs.skip(1)) + extra);
        lemma_rt_enc_u32s(xs.skip(1), extra);
        assert(seq![xs[0]] + xs.skip(1) =~= xs);
    }
}


/// The element run's image starts with its first element's bytes.
pub proof fn lemma_enc_i32s_head(xs: Seq<i32>)
    requires
        xs.len() > 0,
    ensures
        enc_i32s(xs) == spec_i32_to_le_bytes(xs[0]) + enc_i32s(xs.skip(1)),
    decreases xs.len(),
{
    if xs.len() == 1 {
        assert(xs.drop_last() =~= Seq::<i32>::empty());
        assert(enc_i32s(Seq::<i32>::empty()) == Seq::<u8>::empty());
        assert(xs.skip(1) =~= Seq::<i32>::empty());
        assert(Seq::<u8>::empty() + spec_i32_to_le_bytes(xs[0]) =~= spec_i32_to_le_bytes(xs[0]) + Seq::<u8>::empty());
    } else {
        lemma_enc_i32s_head(xs.drop_last());
        assert(xs.drop_last()[0] == xs[0]);
        assert(xs.drop_last().skip(1) =~= xs.skip(1).drop_last());
        assert(xs.skip(1).last() == xs.last());
        assert(xs.skip(1).len() > 0);
        assert(spec_i32_to_le_bytes(xs[0]) + enc_i32s(xs.skip(1).drop_last()) + spec_i32_to_le_bytes(xs.last()) =~= spec_i32_to_le_bytes(
            xs[0],
        ) + (enc_i32s(xs.skip(1).drop_last()) + spec_i32_to_le_bytes(xs.last())));
    }
}

/// Parsing the image of an element run yields the run back, leaving whatever
/// follows it untouched.
pub proof fn lemma_rt_enc_i32s(xs: Seq<i32>, extra: Seq<u8>)
    ensures
        parse_i32s(enc_i32s(xs) + extra, xs.len()) == Ok::<(Seq<i32>, Seq<u8>), TsonError>((xs, extra)),
    decreases xs.len(),
{
    if xs.len() == 0 {
        assert(enc_i32s(xs) + extra =~= extra);
        assert(parse_i32s(extra, 0nat) == Ok::<(Seq<i32>, Seq<u8>), TsonError>(
            (Seq::<i32>::empty(), extra),
        ));
        assert(xs =~= Seq::<i32>::empty());
    } else {
        lemma_enc_i32s_head(xs);
        lemma_i32_le_round_trip(xs[0]);
        assert(spec_i32_to_le_bytes(xs[0]).len() == 4);
        let s = enc_i32s(xs) + extra;
        assert(s =~= spec_i32_to_le_bytes(xs[0]) + (enc_i32s(xs.skip(1)) + extra));
        assert(s.take(4) =~= spec_i32_to_le_bytes(xs[0]));
        assert(s.skip(4) =~= enc_i32s(xs.skip(1)) + extra);
        lemma_rt_enc_i32s(xs.skip(1), extra);
        assert(seq![xs[0]] + xs.skip(1) =~= xs);
    }
}


/// The element run's image starts with its first element's bytes.
pub proof fn lemma_enc_u64s_head(xs: Seq<u64>)
    requires
        xs.len() > 0,
    ensures
        enc_u64s(xs) == spec_u64_to_le_bytes(xs[0]) + enc_u64s(xs.skip(1)),
    decreases xs.len(),
{
    if xs.len() == 1 {
        assert(xs.drop_last() =~= Seq::<u64>::empty());
        assert(enc_u64s(Seq::<u64>::empty()) == Seq::<u8>::empty());
        assert(xs.skip(1) =~= Seq::<u64>::empty());
        assert(Seq::<u8>::empty() + spec_u64_to_le_bytes(xs[0]) =~= spec_u64_to_le_bytes(xs[0]) + Seq::<u8>::empty());
    } else {
        lemma_enc_u64s_head(xs.drop_last());
        assert(xs.drop_last()[0] == xs[0]);
        assert(xs.drop_last().skip(1) =~= xs.skip(1).drop_last());
        assert(xs.skip(1).last() == xs.last());
        assert(xs.skip(1).len() > 0);
        assert(spec_u64_to_le_bytes(xs[0]) + enc_u64s(xs.skip(1).drop_last()) + spec_u64_to_le_bytes(xs.last()) =~= spec_u64_to_le_bytes(
            xs[0],
        ) + (enc_u64s(xs.skip(1).drop_last()) + spec_u64_to_le_bytes(xs.last())));
    }
}

/// Parsing the image of an element run yields the run back, leaving whatever
/// follows it untouched.
pub proof fn lemma_rt_enc_u64s(xs: Seq<u64>, extra: Seq<u8>)
    ensures
        parse_u64s(enc_u64s(xs) + extra, xs.len()) == Ok::<(Seq<u64>, Seq<u8>), TsonError>((xs, extra)),
    decreases xs.len(),
{
    if xs.len() == 0 {
        assert(enc_u64s(xs) + extra =~= extra);
        assert(parse_u64s(extra, 0nat) == Ok::<(Seq<u64>, Seq<u8>), TsonError>(
            (Seq::<u64>::empty(), extra),
        ));
        assert(xs =~= Seq::<u64>::empty());
    } else {
        lemma_enc_u64s_head(xs);
        lemma_auto_spec_u64_to_from_le_bytes();
        assert(spec_u64_to_le_bytes(xs[0]).len() == 8);
        let s = enc_u64s(xs) + extra;
        assert(s =~= spec_u64_to_le_bytes(xs[0]) + (enc_u64s(xs.skip(1)) + extra));
        assert(s.take(8) =~= spec_u64_to_le_bytes(xs[0]));
        assert(s.skip(8) =~= enc_u64s(xs.skip(1)) + extra);
        lemma_rt_enc_u64s(xs.skip(1), extra);
        assert(seq![xs[0]] + xs.skip(1) =~= xs);
    }
}


/// The element run's image starts with its first element's bytes.
pub proof fn lemma_enc_i64s_head(xs: Seq<i64>)
    requires
        xs.len() > 0,
    ensures
        enc_i64s(xs) == spec_i64_to_le_bytes(xs[0]) + enc_i64s(xs.skip(1)),
    decreases xs.len(),
{
    if xs.len() == 1 {
        assert(xs.drop_last() =~= Seq::<i64>::empty());
        assert(enc_i64s(Seq::<i64>::empty()) == Seq::<u8>::empty());
        assert(xs.skip(1) =~= Seq::<i64>::empty());
        assert(Seq::<u8>::empty() + spec_i64_to_le_bytes(xs[0]) =~= spec_i64_to_le_bytes(xs[0]) + Seq::<u8>::empty());
    } else {
        lemma_enc_i64s_head(xs.drop_last());
        assert(xs.drop_last()[0] == xs[0]);
        assert(xs.drop_last().skip(1) =~= xs.skip(1).drop_last());
        assert(xs.skip(1).last() == xs.last());
        assert(xs.skip(1).len() > 0);
        assert(spec_i64_to_le_bytes(xs[0]) + enc_i64s(xs.skip(1).drop_last()) + spec_i64_to_le_bytes(xs.last()) =~= spec_i64_to_le_bytes(
            xs[0],
        ) + (enc_i64s(xs.skip(1).drop_last()) + spec_i64_to_le_bytes(xs.last())));
    }
}

/// Parsing the image of an element run yields the run back, leaving whatever
/// follows it untouched.
pub proof fn lemma_rt_enc_i64s(xs: Seq<i64>, extra: Seq<u8>)
    ensures
        parse_i64s(enc_i64s(xs) + extra, xs.len()) == Ok::<(Seq<i64>, Seq<u8>), TsonError>((xs, extra)),
    decreases xs.len(),
{
    if xs.len() == 0 {
        assert(enc_i64s(xs) + extra =~= extra);
        assert(parse_i64s(extra, 0nat) == Ok::<(Seq<i64>, Seq<u8>), TsonError>(
            (Seq::<i64>::empty(), extra),
        ));
        assert(xs =~= Seq::<i64>::empty());
    } else {
        lemma_enc_i64s_head(xs);
        lemma_i64_le_round_trip(xs[0]);
        assert(spec_i64_to_le_bytes(xs[0]).len() == 8);
        let s = enc_i64s(xs) + extra;
        assert(s =~= spec_i64_to_le_bytes(xs[0]) + (enc_i64s(xs.skip(1)) + extra));
        assert(s.take(8) =~= spec_i64_to_le_bytes(xs[0]));
        assert(s.skip(8) =~= enc_i64s(xs.skip(1)) + extra);
        lemma_rt_enc_i64s(xs.skip(1), extra);
        assert(seq![xs[0]] + xs.skip(1) =~= xs);
    }
}

/// Parsing the image of a string vector's payload against its exact byte
/// budget yields the strings back, leaving whatever follows untouched.
pub proof fn lemma_rt_strs(ss: Seq<Seq<u8>>, extra: Seq<u8>)
    requires
        enc_strs(ss) is Ok,
    ensures
        parse_strvec(enc_strs(ss)->Ok_0 + extra, strvec_total(ss)) == Ok::<
            (Seq<Seq<u8>>, Seq<u8>),
            TsonError,
        >((ss, extra)),
    decreases ss.len(),
{
    if ss.len() == 0 {
        assert(enc_strs(ss)->Ok_0 + extra =~= extra);
        assert(ss =~= Seq::<Seq<u8>>::empty());
    } else {
        lemma_enc_strs_split(ss, 1);
        lemma_strvec_total_split(ss, 1);
        lemma_strvec_total_nonneg(ss.skip(1));
        let a = enc_strs(ss.take(1))->Ok_0;
        let c = enc_strs(ss.skip(1))->Ok_0;
        assert(ss.take(1).drop_last() =~= Seq::<Seq<u8>>::empty());
        assert(enc_strs(Seq::<Seq<u8>>::empty()) == Ok::<Seq<u8>, TsonError>(Seq::<u8>::empty()));
        assert(strvec_total(Seq::<Seq<u8>>::empty()) == 0);
        assert(ss.take(1).last() == ss[0]);
        assert(valid_text(ss[0]));
        assert(a =~= ss[0] + seq![0u8]);
        assert(strvec_total(ss.take(1)) == ss[0].len() + 1);
        let s = enc_strs(ss)->Ok_0 + extra;
        assert(s =~= ss[0] + seq![0u8] + (c + extra));
        lemma_rt_cstr(ss[0], c + extra);
        lemma_rt_strs(ss.skip(1), extra);
        assert(seq![ss[0]] + ss.skip(1) =~= ss);
    }
}

/// Parsing the image of a value yields the value back, leaving whatever
/// follows it untouched.
#[verifier::rlimit(100)]
#[verifier::spinoff_prover]
pub proof fn lemma_rt_value(m: ValueModel, extra: Seq<u8>)
    requires
        enc_value(m) is Ok,
    ensures
        parse_obj(enc_value(m)->Ok_0 + extra) == Ok::<(ValueModel, Seq<u8>), TsonError>(
            (m, extra),
        ),
    decreases m,
{
    let s = enc_value(m)->Ok_0 + extra;
    match m {
        ValueModel::Null => {
            assert(s =~= seq![TAG_NULL] + extra);
            assert(s[0] == TAG_NULL);
            assert(s.skip(1) =~= extra);
        },
        ValueModel::Bool(v) => {
            let byte: u8 = if v {
                1u8
            } else {
                0u8
            };
            assert(s =~= seq![TAG_BOOL] + (seq![byte] + extra));
            assert(s[0] == TAG_BOOL);
            let t = s.skip(1);
            assert(t =~= seq![byte] + extra);
            assert(t[0] == byte);
            assert(t.skip(1) =~= extra);
        },
        ValueModel::Int32(x) => {
            lemma_i32_le_round_trip(x);
            assert(s =~= seq![TAG_INTEGER] + (spec_i32_to_le_bytes(x) + extra));
            assert(s[0] == TAG_INTEGER);
            let t = s.skip(1);
            assert(t =~= spec_i32_to_le_bytes(x) + extra);
            assert(t.take(4) =~= spec_i32_to_le_bytes(x));
            assert(t.skip(4) =~= extra);
        },
        ValueModel::Float64(x) => {
            lemma_auto_spec_u64_to_from_le_bytes();
            assert(spec_u64_to_le_bytes(x).len() == 8);
            assert(s =~= seq![TAG_DOUBLE] + (spec_u64_to_le_bytes(x) + extra));
            assert(s[0] == TAG_DOUBLE);
            let t = s.skip(1);
            assert(t =~= spec_u64_to_le_bytes(x) + extra);
            assert(t.take(8) =~= spec_u64_to_le_bytes(x));
            assert(spec_u64_from_le_bytes(t.take(8)) == x);
            assert(t.skip(8) =~= extra);
        },
        ValueModel::Str(str0) => {
            assert(valid_text(str0));
            assert(s =~= seq![TAG_STRING] + (str0 + seq![0u8] + extra));
            assert(s[0] == TAG_STRING);
            assert(s.skip(1) =~= str0 + seq![0u8] + extra);
            lemma_rt_cstr(str0, extra);
        },
        ValueModel::List(l) => {
            let nw = l.len() as u32;
            lemma_auto_spec_u32_to_from_le_bytes();
            assert(spec_u32_to_le_bytes(nw).len() == 4);
            let body = enc_items(l)->Ok_0;
            assert(s =~= seq![TAG_LIST] + (spec_u32_to_le_bytes(nw) + (body + extra)));
            assert(s[0] == TAG_LIST);
            let t = s.skip(1);
            assert(t =~= spec_u32_to_le_bytes(nw) + (body + extra));
            assert(t.take(4) =~= spec_u32_to_le_bytes(nw));
            assert(spec_u32_from_le_bytes(t.take(4)) == nw);
            assert(t.skip(4) =~= body + extra);
            lemma_rt_items(l, extra);
            assert(nw as nat == l.len());
        },
        ValueModel::Mapping(ps) => {
            let nw = ps.len() as u32;
            lemma_auto_spec_u32_to_from_le_bytes();
            assert(spec_u32_to_le_bytes(nw).len() == 4);
            let body = enc_pairs(ps)->Ok_0;
            assert(s =~= seq![TAG_MAP] + (spec_u32_to_le_bytes(nw) + (body + extra)));
            assert(s[0] == TAG_MAP);
            let t = s.skip(1);
            assert(t =~= spec_u32_to_le_bytes(nw) + (body + extra));
            assert(t.take(4) =~= spec_u32_to_le_bytes(nw));
            assert(spec_u32_from_le_bytes(t.take(4)) == nw);
            assert(t.skip(4) =~= body + extra);
            lemma_rt_pairs(ps, extra);
            assert(nw as nat == ps.len());
        },
        ValueModel::Uint8Vec(v) => {
            let nw = v.len() as u32;
            lemma_auto_spec_u32_to_from_le_bytes();
            assert(spec_u32_to_le_bytes(nw).len() == 4);
            assert(s =~= seq![TAG_LIST_UINT8] + (spec_u32_to_le_bytes(nw) + (v + extra)));
            assert(s[0] == TAG_LIST_UINT8);
            let t = s.skip(1);
            assert(t =~= spec_u32_to_le_bytes(nw) + (v + extra));
            assert(t.take(4) =~= spec_u32_to_le_bytes(nw));
            assert(spec_u32_from_le_bytes(t.take(4)) == nw);
            let u = t.skip(4);
            assert(u =~= v + extra);
            {
                assert(u.take(v.len() as int) =~= v);
                assert(u.skip(v.len() as int) =~= extra);
            }
            assert(nw as nat == v.len());
            assert(is_numvec_tag(TAG_LIST_UINT8));
            assert(parse_numvec(TAG_LIST_UINT8, t) == Ok::<(ValueModel, Seq<u8>), TsonError>(
                (ValueModel::Uint8Vec(v), extra),
            ));
        },
        ValueModel::Int8Vec(v) => {
            let nw = v.len() as u32;
            lemma_auto_spec_u32_to_from_le_bytes();
            assert(spec_u32_to_le_bytes(nw).len() == 4);
            assert(s =~= seq![TAG_LIST_INT8] + (spec_u32_to_le_bytes(nw) + (enc_i8s(v) + extra)));
            assert(s[0] == TAG_LIST_INT8);
            let t = s.skip(1);
            assert(t =~= spec_u32_to_le_bytes(nw) + (enc_i8s(v) + extra));
            assert(t.take(4) =~= spec_u32_to_le_bytes(nw));
            assert(spec_u32_from_le_bytes(t.take(4)) == nw);
            let u = t.skip(4);
            assert(u =~= enc_i8s(v) + extra);
            {
                lemma_rt_enc_i8s(v, extra);
            }
            assert(nw as nat == v.len());
            assert(is_numvec_tag(TAG_LIST_INT8));
            assert(parse_numvec(TAG_LIST_INT8, t) == Ok::<(ValueModel, Seq<u8>), TsonError>(
                (ValueModel::Int8Vec(v), extra),
            ));
        },
        ValueModel::Uint16Vec(v) => {
            let nw = v.len() as u32;
            lemma_auto_spec_u32_to_from_le_bytes();
            assert(spec_u32_to_le_bytes(nw).len() == 4);
            assert(s =~= seq![TAG_LIST_UINT16] + (spec_u32_to_le_bytes(nw) + (enc_u16s(v) + extra)));
            assert(s[0] == TAG_LIST_UINT16);
            let t = s.skip(1);
            assert(t =~= spec_u32_to_le_bytes(nw) + (enc_u16s(v) + extra));
            assert(t.take(4) =~= spec_u32_to_le_bytes(nw));
            assert(spec_u32_from_le_bytes(t.take(4)) == nw);
            let u = t.skip(4);
            assert(u =~= enc_u16s(v) + extra);
            {
                lemma_rt_enc_u16s(v, extra);
            }
            assert(nw as nat == v.len());
            assert(is_numvec_tag(TAG_LIST_UINT16));
            assert(parse_numvec(TAG_LIST_UINT16, t) == Ok::<(ValueModel, Seq<u8>), TsonError>(
                (ValueModel::Uint16Vec(v), extra),
            ));
        },
        ValueModel::Int16Vec(v) => {
            let nw = v.len() as u32;
            lemma_auto_spec_u32_to_from_le_bytes();
            assert(spec_u32_to_le_bytes(nw).len() == 4);
            assert(s =~= seq![TAG_LIST_INT16] + (spec_u32_to_le_bytes(nw) + (enc_i16s(v) + extra)));
            assert(s[0] == TAG_LIST_INT16);
            let t = s.skip(1);
            assert(t =~= spec_u32_to_le_bytes(nw) + (enc_i16s(v) + extra));
            assert(t.take(4) =~= spec_u32_to_le_bytes(nw));
            assert(spec_u32_from_le_bytes(t.take(4)) == nw);
            let u = t.skip(4);
            assert(u =~= enc_i16s(v) + extra);
            {
                lemma_rt_enc_i16s(v, extra);
            }
            assert(nw as nat == v.len());
            assert(is_numvec_tag(TAG_LIST_INT16));
            assert(parse_numvec(TAG_LIST_INT16, t) == Ok::<(ValueModel, Seq<u8>), TsonError>(
                (ValueModel::Int16Vec(v), extra),
            ));
        },
        ValueModel::Uint32Vec(v) => {
            let nw = v.len() as u32;
            lemma_auto_spec_u32_to_from_le_bytes();
            assert(spec_u32_to_le_bytes(nw).len() == 4);
            assert(s =~= seq![TAG_LIST_UINT32] + (spec_u32_to_le_bytes(nw) + (enc_u32s(v) + extra)));
            assert(s[0] == TAG_LIST_UINT32);
            let t = s.skip(1);
            assert(t =~= spec_u32_to_le_bytes(nw) + (enc_u32s(v) + extra));
            assert(t.take(4) =~= spec_u32_to_le_bytes(nw));
            assert(spec_u32_from_le_bytes(t.take(4)) == nw);
            let u = t.skip(4);
            assert(u =~= enc_u32s(v) + extra);
            {
                lemma_rt_enc_u32s(v, extra);
            }
            assert(nw as nat == v.len());
            assert(is_numvec_tag(TAG_LIST_UINT32));
            assert(parse_numvec(TAG_LIST_UINT32, t) == Ok::<(ValueModel, Seq<u8>), TsonError>(
                (ValueModel::Uint32Vec(v), extra),
            ));
        },
        ValueModel::Int32Vec(v) => {
            let nw = v.len() as u32;
            lemma_auto_spec_u32_to_from_le_bytes();
            assert(spec_u32_to_le_bytes(nw).len() == 4);
            assert(s =~= seq![TAG_LIST_INT32] + (spec_u32_to_le_bytes(nw) + (enc_i32s(v) + extra)));
            assert(s[0] == TAG_LIST_INT32);
            let t = s.skip(1);
            assert(t =~= spec_u32_to_le_bytes(nw) + (enc_i32s(v) + extra));
            assert(t.take(4) =~= spec_u32_to_le_bytes(nw));
            assert(spec_u32_from_le_bytes(t.take(4)) == nw);
            let u = t.skip(4);
            assert(u =~= enc_i32s(v) + extra);
            {
                lemma_rt_enc_i32s(v, extra);
            }
            assert(nw as nat == v.len());
            assert(is_numvec_tag(TAG_LIST_INT32));
            assert(parse_numvec(TAG_LIST_INT32, t) == Ok::<(ValueModel, Seq<u8>), TsonError>(
                (ValueModel::Int32Vec(v), extra),
            ));
        },
        ValueModel::Int64Vec(v) => {
            let nw = v.len() as u32;
            lemma_auto_spec_u32_to_from_le_bytes();
            assert(spec_u32_to_le_bytes(nw).len() == 4);
            assert(s =~= seq![TAG_LIST_INT64] + (spec_u32_to_le_bytes(nw) + (enc_i64s(v) + extra)));
            assert(s[0] == TAG_LIST_INT64);
            let t = s.skip(1);
            assert(t =~= spec_u32_to_le_bytes(nw) + (enc_i64s(v) + extra));
            assert(t.take(4) =~= spec_u32_to_le_bytes(nw));
            assert(spec_u32_from_le_bytes(t.take(4)) == nw);
            let u = t.skip(4);
            assert(u =~= enc_i64s(v) + extra);
            {
                lemma_rt_enc_i64s(v, extra);
            }
            assert(nw as nat == v.len());
            assert(is_numvec_tag(TAG_LIST_INT64));
            assert(parse_numvec(TAG_LIST_INT64, t) == Ok::<(ValueModel, Seq<u8>), TsonError>(
                (ValueModel::Int64Vec(v), extra),
            ));
        },
        ValueModel::Uint64Vec(v) => {
            let nw = v.len() as u32;
            lemma_auto_spec_u32_to_from_le_bytes();
            assert(spec_u32_to_le_bytes(nw).len() == 4);
            assert(s =~= seq![TAG_LIST_UINT64] + (spec_u32_to_le_bytes(nw) + (enc_u64s(v) + extra)));
            assert(s[0] == TAG_LIST_UINT64);
            let t = s.skip(1);
            assert(t =~= spec_u32_to_le_bytes(nw) + (enc_u64s(v) + extra));
            assert(t.take(4) =~= spec_u32_to_le_bytes(nw));
            assert(spec_u32_from_le_bytes(t.take(4)) == nw);
            let u = t.skip(4);
            assert(u =~= enc_u64s(v) + extra);
            {
                lemma_rt_enc_u64s(v, extra);
            }
            assert(nw as nat == v.len());
            assert(is_numvec_tag(TAG_LIST_UINT64));
            assert(parse_numvec(TAG_LIST_UINT64, t) == Ok::<(ValueModel, Seq<u8>), TsonError>(
                (ValueModel::Uint64Vec(v), extra),
            ));
        },
        ValueModel::Float32Vec(v) => {
            let nw = v.len() as u32;
            lemma_auto_spec_u32_to_from_le_bytes();
            assert(spec_u32_to_le_bytes(nw).len() == 4);
            assert(s =~= seq![TAG_LIST_FLOAT32] + (spec_u32_to_le_bytes(nw) + (enc_u32s(v) + extra)));
            assert(s[0] == TAG_LIST_FLOAT32);
            let t = s.skip(1);
            assert(t =~= spec_u32_to_le_bytes(nw) + (enc_u32s(v) + extra));
            assert(t.take(4) =~= spec_u32_to_le_bytes(nw));
            assert(spec_u32_from_le_bytes(t.take(4)) == nw);
            let u = t.skip(4);
            assert(u =~= enc_u32s(v) + extra);
            {
                lemma_rt_enc_u32s(v, extra);
            }
            assert(nw as nat == v.len());
            assert(is_numvec_tag(TAG_LIST_FLOAT32));
            assert(parse_numvec(TAG_LIST_FLOAT32, t) == Ok::<(ValueModel, Seq<u8>), TsonError>(
                (ValueModel::Float32Vec(v), extra),
            ));
        },
        ValueModel::Float64Vec(v) => {
            let nw = v.len() as u32;
            lemma_auto_spec_u32_to_from_le_bytes();
            assert(spec_u32_to_le_bytes(nw).len() == 4);
            assert(s =~= seq![TAG_LIST_FLOAT64] + (spec_u32_to_le_bytes(nw) + (enc_u64s(v) + extra)));
            assert(s[0] == TAG_LIST_FLOAT64);
            let t = s.skip(1);
            assert(t =~= spec_u32_to_le_bytes(nw) + (enc_u64s(v) + extra));
            assert(t.take(4) =~= spec_u32_to_le_bytes(nw));
            assert(spec_u32_from_le_bytes(t.take(4)) == nw);
            let u = t.skip(4);
            assert(u =~= enc_u64s(v) + extra);
            {
                lemma_rt_enc_u64s(v, extra);
            }
            assert(nw as nat == v.len());
            assert(is_numvec_tag(TAG_LIST_FLOAT64));
            assert(parse_numvec(TAG_LIST_FLOAT64, t) == Ok::<(ValueModel, Seq<u8>), TsonError>(
                (ValueModel::Float64Vec(v), extra),
            ));
        },
        ValueModel::StringVec(ss) => {
            lemma_strvec_total_nonneg(ss);
            let total = strvec_total(ss);
            let nw = total as u32;
            lemma_auto_spec_u32_to_from_le_bytes();
            assert(spec_u32_to_le_bytes(nw).len() == 4);
            let body = enc_strs(ss)->Ok_0;
            assert(s =~= seq![TAG_LIST_STRING] + (spec_u32_to_le_bytes(nw) + (body + extra)));
            assert(s[0] == TAG_LIST_STRING);
            let t = s.skip(1);
            assert(t =~= spec_u32_to_le_bytes(nw) + (body + extra));
            assert(t.take(4) =~= spec_u32_to_le_bytes(nw));
            assert(spec_u32_from_le_bytes(t.take(4)) == nw);
            assert(t.skip(4) =~= body + extra);
            lemma_rt_strs(ss, extra);
            assert(nw as int == total);
        },
    }
}

/// Parsing the image of a run of values, against its element count, yields
/// the values back in order.
pub proof fn lemma_rt_items(l: Seq<ValueModel>, extra: Seq<u8>)
    requires
        enc_items(l) is Ok,
    ensures
        parse_items(enc_items(l)->Ok_0 + extra, l.len()) == Ok::<
            (Seq<ValueModel>, Seq<u8>),
            TsonError,
        >((l, extra)),
    decreases l,
{
    if l.len() == 0 {
        assert(enc_items(l)->Ok_0 + extra =~= extra);
        assert(l =~= Seq::<ValueModel>::empty());
    } else {
        lemma_enc_items_split(l, 1);
        let a = enc_items(l.take(1))->Ok_0;
        let c = enc_items(l.skip(1))->Ok_0;
        assert(l.take(1).drop_last() =~= Seq::<ValueModel>::empty());
        assert(enc_items(Seq::<ValueModel>::empty()) == Ok::<Seq<u8>, TsonError>(
            Seq::<u8>::empty(),
        ));
        assert(l.take(1).last() == l[0]);
        let cb = enc_value(l[0])->Ok_0;
        assert(a =~= cb);
        let s = enc_items(l)->Ok_0 + extra;
        assert(s =~= cb + (c + extra));
        lemma_rt_value(l[0], c + extra);
        lemma_parse_obj_consumes(s);
        lemma_rt_items(l.skip(1), extra);
        assert(seq![l[0]] + l.skip(1) =~= l);
    }
}

/// Parsing the image of a run of (key, value) pairs, against its pair count,
/// yields the pairs back in order.
pub proof fn lemma_rt_pairs(ps: Seq<(Seq<u8>, ValueModel)>, extra: Seq<u8>)
    requires
        enc_pairs(ps) is Ok,
    ensures
        parse_pairs(enc_pairs(ps)->Ok_0 + extra, ps.len()) == Ok::<
            (Seq<(Seq<u8>, ValueModel)>, Seq<u8>),
            TsonError,
        >((ps, extra)),
    decreases ps,
{
    if ps.len() == 0 {
        assert(enc_pairs(ps)->Ok_0 + extra =~= extra);
        assert(ps =~= Seq::<(Seq<u8>, ValueModel)>::empty());
    } else {
        lemma_enc_pairs_split(ps, 1);
        let a = enc_pairs(ps.take(1))->Ok_0;
        let c = enc_pairs(ps.skip(1))->Ok_0;
        assert(ps.take(1).drop_last() =~= Seq::<(Seq<u8>, ValueModel)>::empty());
        assert(enc_pairs(Seq::<(Seq<u8>, ValueModel)>::empty()) == Ok::<Seq<u8>, TsonError>(
            Seq::<u8>::empty(),
        ));
        assert(ps.take(1).last() == ps[0]);
        let k = ps[0].0;
        let vb = enc_value(ps[0].1)->Ok_0;
        assert(valid_text(k));
        assert(a =~= seq![TAG_STRING] + k + seq![0u8] + vb);
        let s = enc_pairs(ps)->Ok_0 + extra;
        assert(s =~= seq![TAG_STRING] + (k + seq![0u8] + (vb + (c + extra))));
        assert(s[0] == TAG_STRING);
        assert(s.skip(1) =~= k + seq![0u8] + (vb + (c + extra)));
        lemma_rt_cstr(k, vb + (c + extra));
        let r1 = vb + (c + extra);
        assert(r1.len() < s.len());
        lemma_rt_value(ps[0].1, c + extra);
        assert(r1 =~= vb + (c + extra));
        lemma_parse_obj_consumes(r1);
        lemma_rt_pairs(ps.skip(1), extra);
        assert(seq![ps[0]] + ps.skip(1) =~= ps);
    }
}

/// Round trip: decoding the encoded stream of any encodable value yields that
/// value back, structurally — map pair order and vector element order
/// included.
pub proof fn lemma_round_trip(m: ValueModel)
    requires
        enc_value(m) is Ok,
    ensures
        enc_stream(m) is Ok,
        spec_decode(enc_stream(m)->Ok_0) == Ok::<ValueModel, TsonError>(m),
{
    lemma_version_nul_free();
    let b = enc_value(m)->Ok_0;
    let sb = header_bytes() + b;
    assert(sb =~= seq![TAG_STRING] + (version_bytes() + seq![0u8] + b));
    assert(sb[0] == TAG_STRING);
    assert(sb.skip(1) =~= version_bytes() + seq![0u8] + b);
    lemma_rt_scan_cstr(version_bytes(), b);
    lemma_rt_value(m, Seq::<u8>::empty());
    assert(b + Seq::<u8>::empty() =~= b);
}

/// Version gate: a stream whose header carries any NUL-free token other than
/// the codec's version fails with `FormatError`, whatever bytes follow.
pub proof fn lemma_version_gate(ver: Seq<u8>, tail: Seq<u8>)
    requires
        nul_free(ver),
        ver != version_bytes(),
    ensures
        spec_decode(seq![TAG_STRING] + ver + seq![0u8] + tail) == Err::<ValueModel, TsonError>(
            TsonError::FormatError,
        ),
{
    let s = seq![TAG_STRING] + ver + seq![0u8] + tail;
    assert(s[0] == TAG_STRING);
    assert(s.skip(1) =~= ver + seq![0u8] + tail);
    lemma_rt_scan_cstr(ver, tail);
}

/// Tag exhaustiveness: a value whose tag byte is none of the recognized tags
/// fails with `FormatError`, whatever bytes follow the tag.
pub proof fn lemma_tag_gate(t: u8, tail: Seq<u8>)
    requires
        !known_tag(t),
    ensures
        parse_obj(seq![t] + tail) == Err::<(ValueModel, Seq<u8>), TsonError>(
            TsonError::FormatError,
        ),
{
    let s = seq![t] + tail;
    assert(s.len() >= 1);
    assert(s[0] == t);
}

/// Tag exhaustiveness at stream level: a well-formed header followed by an
/// unrecognized tag byte fails the whole decode with `FormatError`.
pub proof fn lemma_tag_gate_stream(t: u8, tail: Seq<u8>)
    requires
        !known_tag(t),
    ensures
        spec_decode(header_bytes() + (seq![t] + tail)) == Err::<ValueModel, TsonError>(
            TsonError::FormatError,
        ),
{
    lemma_version_nul_free();
    let s = header_bytes() + (seq![t] + tail);
    assert(s =~= seq![TAG_STRING] + (version_bytes() + seq![0u8] + (seq![t] + tail)));
    assert(s[0] == TAG_STRING);
    assert(s.skip(1) =~= version_bytes() + seq![0u8] + (seq![t] + tail));
    lemma_rt_scan_cstr(version_bytes(), seq![t] + tail);
    lemma_tag_gate(t, tail);
}

/// String-vector self-delimiting, encoder side: the byte-count field of an
/// encoded string vector equals the sum over the strings of length plus one,
/// and its payload is exactly that many bytes.
pub proof fn lemma_strvec_field(ss: Seq<Seq<u8>>)
    requires
        enc_value(ValueModel::StringVec(ss)) is Ok,
    ensures
        enc_strs(ss) is Ok,
        enc_value(ValueModel::StringVec(ss))->Ok_0 == seq![TAG_LIST_STRING]
            + spec_u32_to_le_bytes(strvec_total(ss) as u32) + enc_strs(ss)->Ok_0,
        enc_strs(ss)->Ok_0.len() == strvec_total(ss),
{
    lemma_enc_strs_len(ss);
}

/// String-vector self-delimiting, decoder side: a successful parse against a
/// byte budget consumes exactly that many bytes, across exactly the strings
/// whose lengths plus their NUL terminators sum to it.
pub proof fn lemma_strvec_exact(s: Seq<u8>, budget: int)
    requires
        budget >= 0,
        parse_strvec(s, budget) is Ok,
    ensures
        budget <= s.len(),
        strvec_total(parse_strvec(s, budget)->Ok_0.0) == budget,
        parse_strvec(s, budget)->Ok_0.1 == s.skip(budget),
    decreases budget,
{
    if budget == 0 {
        assert(strvec_total(Seq::<Seq<u8>>::empty()) == 0);
        assert(s.skip(0) =~= s);
    } else {
        lemma_parse_cstr_shape(s);
        let b = parse_cstr(s)->Ok_0.0;
        let rest = parse_cstr(s)->Ok_0.1;
        lemma_strvec_exact(rest, budget - b.len() - 1);
        let ss = parse_strvec(rest, budget - b.len() - 1)->Ok_0.0;
        lemma_strvec_total_split(seq![b] + ss, 1);
        assert((seq![b] + ss).take(1).drop_last() =~= Seq::<Seq<u8>>::empty());
        assert(strvec_total(Seq::<Seq<u8>>::empty()) == 0);
        assert((seq![b] + ss).take(1).last() == b);
        assert(strvec_total((seq![b] + ss).take(1)) == b.len() + 1);
        assert((seq![b] + ss).skip(1) =~= ss);
        assert(rest =~= s.skip(b.len() as int + 1));
        assert(s.skip(b.len() as int + 1).skip(budget - b.len() - 1) =~= s.skip(budget));
    }
}

/// The element count (or byte budget) a node itself declares is enforced:
/// where it exceeds `MAX_LIST_LENGTH`, encoding fails with `TooLarge`, and
/// the encoder hands back no bytes at all.
pub open spec fn own_count_over(m: ValueModel) -> bool {
    match m {
        ValueModel::List(l) => l.len() > max_len(),
        ValueModel::Mapping(ps) => ps.len() > max_len(),
        ValueModel::Uint8Vec(v) => v.len() > max_len(),
        ValueModel::Int8Vec(v) => v.len() > max_len(),
        ValueModel::Uint16Vec(v) => v.len() > max_len(),
        ValueModel::Int16Vec(v) => v.len() > max_len(),
        ValueModel::Uint32Vec(v) => v.len() > max_len(),
        ValueModel::Int32Vec(v) => v.len() > max_len(),
        ValueModel::Int64Vec(v) => v.len() > max_len(),
        ValueModel::Uint64Vec(v) => v.len() > max_len(),
        ValueModel::Float32Vec(v) => v.len() > max_len(),
        ValueModel::Float64Vec(v) => v.len() > max_len(),
        ValueModel::StringVec(ss) => strvec_total(ss) > max_len(),
        _ => false,
    }
}

/// Size-limit enforcement: a list, map or vector whose own count exceeds the
/// maximum fails encoding with `TooLarge`.
pub proof fn lemma_size_limit(m: ValueModel)
    requires
        own_count_over(m),
    ensures
        enc_value(m) == Err::<Seq<u8>, TsonError>(TsonError::TooLarge),
{
}

/// Map order preservation: a round-tripped map carries its pairs in exactly
/// the order they were built, never re-sorted by key.
pub proof fn lemma_map_order(ps: Seq<(Seq<u8>, ValueModel)>)
    requires
        enc_value(ValueModel::Mapping(ps)) is Ok,
    ensures
        enc_stream(ValueModel::Mapping(ps)) is Ok,
        spec_decode(enc_stream(ValueModel::Mapping(ps))->Ok_0) == Ok::<ValueModel, TsonError>(
            ValueModel::Mapping(ps),
        ),
{
    lemma_round_trip(ValueModel::Mapping(ps));
}



/// A run of values encodes exactly when each of its elements does.
pub proof fn lemma_enc_items_ok(l: Seq<ValueModel>)
    ensures
        enc_items(l) is Ok <==> (forall|i: int|
            0 <= i < l.len() ==> (#[trigger] enc_value(l[i])) is Ok),
    decreases l.len(),
{
    if l.len() > 0 {
        lemma_enc_items_ok(l.drop_last());
        if enc_items(l) is Ok {
            assert forall|i: int| 0 <= i < l.len() implies (#[trigger] enc_value(l[i])) is Ok by {
                if i < l.len() - 1 {
                    assert(l.drop_last()[i] == l[i]);
                }
            }
        } else {
            if forall|i: int| 0 <= i < l.len() ==> (#[trigger] enc_value(l[i])) is Ok {
                assert forall|i: int|
                    0 <= i < l.drop_last().len() implies (#[trigger] enc_value(
                    l.drop_last()[i],
                )) is Ok by {
                    assert(l.drop_last()[i] == l[i]);
                }
                assert(enc_items(l.drop_last()) is Ok);
                assert(enc_value(l.last()) is Ok);
                assert(false);
            }
        }
    }
}

/// A run of pairs encodes exactly when each key is acceptable text and each
/// value encodes.
pub proof fn lemma_enc_pairs_ok(ps: Seq<(Seq<u8>, ValueModel)>)
    ensures
        enc_pairs(ps) is Ok <==> (forall|i: int|
            0 <= i < ps.len() ==> valid_text((#[trigger] ps[i]).0) && enc_value(ps[i].1) is Ok),
    decreases ps.len(),
{
    if ps.len() > 0 {
        lemma_enc_pairs_ok(ps.drop_last());
        if enc_pairs(ps) is Ok {
            assert forall|i: int|
                0 <= i < ps.len() implies valid_text((#[trigger] ps[i]).0) && enc_value(
                ps[i].1,
            ) is Ok by {
                if i < ps.len() - 1 {
                    assert(ps.drop_last()[i] == ps[i]);
                }
            }
        } else {
            if forall|i: int|
                0 <= i < ps.len() ==> valid_text((#[trigger] ps[i]).0) && enc_value(
                ps[i].1,
            ) is Ok {
                assert forall|i: int|
                    0 <= i < ps.drop_last().len() implies valid_text(
                    (#[trigger] ps.drop_last()[i]).0,
                ) && enc_value(ps.drop_last()[i].1) is Ok by {
                    assert(ps.drop_last()[i] == ps[i]);
                }
                assert(enc_pairs(ps.drop_last()) is Ok);
                assert(valid_text(ps.last().0) && enc_value(ps.last().1) is Ok);
                assert(false);
            }
        }
    }
}

/// A string vector's payload encodes exactly when each element is acceptable
/// text.
pub proof fn lemma_enc_strs_ok(ss: Seq<Seq<u8>>)
    ensures
        enc_strs(ss) is Ok <==> (forall|i: int| 0 <= i < ss.len() ==> valid_text(
            #[trigger] ss[i],
        )),
    decreases ss.len(),
{
    if ss.len() > 0 {
        lemma_enc_strs_ok(ss.drop_last());
        if enc_strs(ss) is Ok {
            assert forall|i: int| 0 <= i < ss.len() implies valid_text(#[trigger] ss[i]) by {
                if i < ss.len() - 1 {
                    assert(ss.drop_last()[i] == ss[i]);
                }
            }
        } else {
            if forall|i: int| 0 <= i < ss.len() ==> valid_text(#[trigger] ss[i]) {
                assert forall|i: int|
                    0 <= i < ss.drop_last().len() implies valid_text(
                    #[trigger] ss.drop_last()[i],
                ) by {
                    assert(ss.drop_last()[i] == ss[i]);
                }
                assert(enc_strs(ss.drop_last()) is Ok);
                assert(valid_text(ss.last()));
                assert(false);
            }
        }
    }
}

/// A value encodes exactly when all its strings are acceptable text and all
/// its counts are within the bound: success is owed on exactly those values.
pub proof fn lemma_encodable(m: ValueModel)
    ensures
        enc_value(m) is Ok <==> (strings_ok(m) && counts_ok(m)),
    decreases m,
{
    match m {
        ValueModel::List(l) => {
            lemma_enc_items_ok(l);
            assert forall|i: int|
                0 <= i < l.len() implies ((#[trigger] enc_value(l[i])) is Ok <==> (strings_ok(
                l[i],
            ) && counts_ok(l[i]))) by {
                lemma_encodable(l[i]);
            }
            if strings_ok(m) && counts_ok(m) {
                assert forall|i: int| 0 <= i < l.len() implies (#[trigger] enc_value(
                    l[i],
                )) is Ok by {
                    assert(strings_ok(l[i]));
                    assert(counts_ok(l[i]));
                }
                assert(enc_items(l) is Ok);
                assert(l.len() <= max_len());
                assert(enc_value(m) is Ok);
            }
            if enc_value(m) is Ok {
                assert forall|i: int| 0 <= i < l.len() implies strings_ok(#[trigger] l[i]) by {
                    assert(enc_value(l[i]) is Ok);
                }
                assert forall|i: int| 0 <= i < l.len() implies counts_ok(#[trigger] l[i]) by {
                    assert(enc_value(l[i]) is Ok);
                }
                assert(strings_ok(m));
                assert(counts_ok(m));
            }
            assert(enc_value(m) is Ok <==> (strings_ok(m) && counts_ok(m)));
        },
        ValueModel::Mapping(ps) => {
            lemma_enc_pairs_ok(ps);
            assert forall|i: int|
                0 <= i < ps.len() implies ((#[trigger] enc_value(ps[i].1)) is Ok <==> (strings_ok(
                ps[i].1,
            ) && counts_ok(ps[i].1))) by {
                lemma_encodable(ps[i].1);
            }
            if strings_ok(m) && counts_ok(m) {
                assert forall|i: int|
                    0 <= i < ps.len() implies valid_text((#[trigger] ps[i]).0) && enc_value(
                    ps[i].1,
                ) is Ok by {
                    assert(valid_text(ps[i].0) && strings_ok(ps[i].1));
                    assert(counts_ok(ps[i].1));
                }
            }
            if enc_value(m) is Ok {
                assert forall|i: int|
                    0 <= i < ps.len() implies valid_text((#[trigger] ps[i]).0) && strings_ok(
                    ps[i].1,
                ) by {
                    assert(valid_text(ps[i].0) && enc_value(ps[i].1) is Ok);
                }
                assert forall|i: int| 0 <= i < ps.len() implies counts_ok(
                    (#[trigger] ps[i]).1,
                ) by {
                    assert(enc_value(ps[i].1) is Ok);
                }
            }
            assert(enc_value(m) is Ok <==> (strings_ok(m) && counts_ok(m)));
        },
        ValueModel::StringVec(ss) => {
            lemma_enc_strs_ok(ss);
        },
        _ => {},
    }
}

/// Where every string is acceptable text, the only way encoding can fail is
/// an oversized count — and then it fails with `TooLarge`.
pub proof fn lemma_enc_err_kind(m: ValueModel)
    requires
        strings_ok(m),
        enc_value(m) is Err,
    ensures
        enc_value(m) == Err::<Seq<u8>, TsonError>(TsonError::TooLarge),
    decreases m,
{
    match m {
        ValueModel::List(l) => {
            if l.len() <= max_len() {
                lemma_enc_items_err_kind(l);
            }
        },
        ValueModel::Mapping(ps) => {
            if ps.len() <= max_len() {
                lemma_enc_pairs_err_kind(ps);
            }
        },
        ValueModel::StringVec(ss) => {
            lemma_enc_strs_ok(ss);
        },
        _ => {},
    }
}

proof fn lemma_enc_items_err_kind(l: Seq<ValueModel>)
    requires
        forall|i: int| 0 <= i < l.len() ==> strings_ok(#[trigger] l[i]),
        enc_items(l) is Err,
    ensures
        enc_items(l) == Err::<Seq<u8>, TsonError>(TsonError::TooLarge),
    decreases l,
{
    if l.len() > 0 {
        if enc_items(l.drop_last()) is Err {
            assert forall|i: int|
                0 <= i < l.drop_last().len() implies strings_ok(#[trigger] l.drop_last()[i]) by {
                assert(l.drop_last()[i] == l[i]);
            }
            lemma_enc_items_err_kind(l.drop_last());
        } else {
            assert(strings_ok(l.last()));
            lemma_enc_err_kind(l.last());
        }
    }
}

proof fn lemma_enc_pairs_err_kind(ps: Seq<(Seq<u8>, ValueModel)>)
    requires
        forall|i: int|
            0 <= i < ps.len() ==> valid_text((#[trigger] ps[i]).0) && strings_ok(ps[i].1),
        enc_pairs(ps) is Err,
    ensures
        enc_pairs(ps) == Err::<Seq<u8>, TsonError>(TsonError::TooLarge),
    decreases ps,
{
    if ps.len() > 0 {
        if enc_pairs(ps.drop_last()) is Err {
            assert forall|i: int|
                0 <= i < ps.drop_last().len() implies valid_text(
                (#[trigger] ps.drop_last()[i]).0,
            ) && strings_ok(ps.drop_last()[i].1) by {
                assert(ps.drop_last()[i] == ps[i]);
            }
            lemma_enc_pairs_err_kind(ps.drop_last());
        } else {
            assert(valid_text(ps.last().0) && strings_ok(ps.last().1));
            lemma_enc_err_kind(ps.last().1);
        }
    }
}

/// Size-limit enforcement in general: a value whose strings are all
/// acceptable text but which holds an oversized count anywhere fails encoding
/// with `TooLarge`.
pub proof fn lemma_size_limit_deep(m: ValueModel)
    requires
        strings_ok(m),
        !counts_ok(m),
    ensures
        enc_value(m) == Err::<Seq<u8>, TsonError>(TsonError::TooLarge),
{
    lemma_encodable(m);
    lemma_enc_err_kind(m);
}

/// Truncating a NUL-terminated wire string anywhere before its terminator
/// leaves an unterminated read: scanning any strict prefix of its bytes fails
/// with `TruncatedInput`.
pub proof fn lemma_truncation_scan_cstr(v: Seq<u8>, j: int)
    requires
        nul_free(v),
        0 <= j <= v.len(),
    ensures
        scan_cstr((v + seq![0u8]).take(j)) == Err::<(Seq<u8>, Seq<u8>), TsonError>(
            TsonError::TruncatedInput,
        ),
    decreases j,
{
    let q = (v + seq![0u8]).take(j);
    if j == 0 {
        assert(q.len() == 0);
    } else {
        assert(q[0] == v[0]);
        assert(q[0] != 0);
        lemma_truncation_scan_cstr(v.skip(1), j - 1);
        assert(q.skip(1) =~= (v.skip(1) + seq![0u8]).take(j - 1));
    }
}

/// The same at the parse level: an unterminated string never reaches the
/// text check.
pub proof fn lemma_truncation_cstr(v: Seq<u8>, j: int)
    requires
        nul_free(v),
        0 <= j <= v.len(),
    ensures
        parse_cstr((v + seq![0u8]).take(j)) == Err::<(Seq<u8>, Seq<u8>), TsonError>(
            TsonError::TruncatedInput,
        ),
{
    lemma_truncation_scan_cstr(v, j);
}

/// Truncation detection within the header: cutting a stream anywhere inside
/// its version header fails the decode with `TruncatedInput`.
pub proof fn lemma_truncation_header(s: Seq<u8>, i: int)
    requires
        0 <= i < header_bytes().len(),
    ensures
        spec_decode((header_bytes() + s).take(i)) == Err::<ValueModel, TsonError>(
            TsonError::TruncatedInput,
        ),
{
    lemma_version_nul_free();
    let p = (header_bytes() + s).take(i);
    if i > 0 {
        assert(p[0] == TAG_STRING);
        assert(p.skip(1) =~= (version_bytes() + seq![0u8]).take(i - 1));
        lemma_truncation_scan_cstr(version_bytes(), i - 1);
    }
}

/// Truncation detection within a scalar value: cutting a null, boolean,
/// integer, double or string value short of its last byte fails with
/// `TruncatedInput`, never yielding a shorter value.
pub proof fn lemma_truncation_scalar(m: ValueModel, i: int)
    requires
        enc_value(m) is Ok,
        m is Null || m is Bool || m is Int32 || m is Float64 || m is Str,
        0 <= i < enc_value(m)->Ok_0.len(),
    ensures
        parse_obj(enc_value(m)->Ok_0.take(i)) == Err::<(ValueModel, Seq<u8>), TsonError>(
            TsonError::TruncatedInput,
        ),
{
    let b = enc_value(m)->Ok_0;
    let p = b.take(i);
    if i == 0 {
        assert(p.len() == 0);
    } else {
        match m {
            ValueModel::Bool(v) => {
                assert(p[0] == TAG_BOOL);
                assert(p.skip(1) =~= Seq::<u8>::empty());
            },
            ValueModel::Int32(x) => {
                lemma_i32_le_round_trip(x);
                assert(p[0] == TAG_INTEGER);
                assert(p.skip(1).len() < 4);
            },
            ValueModel::Float64(x) => {
                lemma_auto_spec_u64_to_from_le_bytes();
                assert(spec_u64_to_le_bytes(x).len() == 8);
                assert(p[0] == TAG_DOUBLE);
                assert(p.skip(1).len() < 8);
            },
            ValueModel::Str(t0) => {
                assert(p[0] == TAG_STRING);
                assert(p.skip(1) =~= (t0 + seq![0u8]).take(i - 1));
                lemma_truncation_cstr(t0, i - 1);
            },
            _ => {},
        }
    }
}

} // verus!
