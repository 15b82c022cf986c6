//! A codec for a compact, self-describing, type-tagged binary format
//! ("TSON") that losslessly round-trips a small dynamic value model — nulls,
//! scalars, homogeneous typed numeric vectors, strings, lists, and
//! string-keyed maps — to and from a byte stream.
//!
//! Every stream starts with a version header, then one tagged value. All
//! multi-byte integers are little-endian; every length field is a 4-byte
//! unsigned integer. The encoder is a single-allocation, two-pass design: a
//! counting pass computes the exact output size, then a materializing pass
//! fills a buffer of exactly that size, both running the same traversal over
//! an abstract byte sink.

pub mod deser;
pub mod error;
pub mod laws;
pub mod reader;
pub mod ser;
pub mod value;
pub mod wire;
pub mod writer;

use vstd::prelude::*;
use crate::deser::{spec_decode, spec_decode_full, scan_cstr, known_tag, RTsonDeserializer};
use crate::error::TsonError;
use crate::reader::Reader;
use crate::ser::{enc_value, enc_failure, header_bytes, RSerializer};
use crate::value::{Value, ValueModel};

verus! {

/// Encode one value to its byte stream: the version header, then the tagged
/// value. Fails with the traversal's first error — `InvalidString` for an
/// embedded NUL, `TooLarge` for a count over `MAX_LIST_LENGTH` — and then
/// hands back no bytes at all.
pub fn encode(value: &Value) -> (r: Result<Vec<u8>, TsonError>)
    ensures
        match r {
            Ok(bytes) => enc_value(value.dv()) matches Ok(b) && bytes@ == header_bytes() + b,
            Err(e) => enc_failure(value.dv(), e),
        },
{
    let ser = RSerializer::new();
    ser.encode(value)
}

/// Decode one value from a byte stream: check the version header, then parse
/// one tagged value. Trailing bytes are ignored.
pub fn decode(bytes: &[u8]) -> (r: Result<Value, TsonError>)
    ensures
        match r {
            Ok(v) => spec_decode(bytes@) == Ok::<ValueModel, TsonError>(v.dv()),
            Err(e) => spec_decode(bytes@) == Err::<ValueModel, TsonError>(e),
        },
{
    let mut reader = Reader::new(bytes);
    let deser = RTsonDeserializer::new();
    deser.read(&mut reader)
}

/// Decode one value from an externally supplied byte source, leaving the
/// source positioned just past the value.
pub fn decode_from(reader: &mut Reader) -> (r: Result<Value, TsonError>)
    requires
        old(reader).wf(),
    ensures
        final(reader).wf(),
        final(reader).source() == old(reader).source(),
        match r {
            Ok(v) => spec_decode_full(old(reader).remaining()) == Ok::<
                (ValueModel, Seq<u8>),
                TsonError,
            >((v.dv(), final(reader).remaining())),
            Err(e) => spec_decode(old(reader).remaining()) == Err::<ValueModel, TsonError>(e),
        },
        // A wrong leading tag is rejected after exactly that one byte.
        (r is Err && old(reader).remaining().len() >= 1 && old(reader).remaining()[0]
            != crate::wire::TAG_STRING) ==> final(reader).remaining() == old(
            reader,
        ).remaining().skip(1),
        // Behind a well-formed header, an unrecognized object tag is rejected
        // after exactly that one byte: no length or payload bytes are
        // consumed.
        ({
            let h = scan_cstr(old(reader).remaining().skip(1));
            (old(reader).remaining().len() >= 1 && old(reader).remaining()[0]
                == crate::wire::TAG_STRING && h is Ok && h->Ok_0.0
                == crate::wire::version_bytes() && h->Ok_0.1.len() >= 1 && !known_tag(
                h->Ok_0.1[0],
            )) ==> final(reader).remaining() == h->Ok_0.1.skip(1)
        }),
{
    let deser = RTsonDeserializer::new();
    deser.read(reader)
}

} // verus!
