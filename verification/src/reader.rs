use vstd::prelude::*;
use vstd::bytes::*;
use crate::error::TsonError;
use crate::wire::{spec_i8_from_le_bytes, spec_i16_from_le_bytes, spec_i32_from_le_bytes, spec_i64_from_le_bytes};

verus! {

broadcast use vstd::seq::group_seq_axioms;

/// A read-only cursor over a byte slice: the codec's byte source. Every read
/// either consumes exactly the bytes of one fixed-width field or fails with
/// `TruncatedInput`, leaving the cursor where it was.
pub struct Reader<'a> {
    /// The underlying byte source.
    pub data: &'a [u8],
    /// How many bytes have been consumed.
    pub pos: usize,
}

impl<'a> Reader<'a> {
    pub open spec fn wf(&self) -> bool {
        self.pos <= self.data@.len()
    }

    /// The whole underlying byte source.
    pub open spec fn source(&self) -> Seq<u8> {
        self.data@
    }

    /// The bytes not yet consumed.
    pub open spec fn remaining(&self) -> Seq<u8> {
        self.data@.skip(self.pos as int)
    }

    pub fn new(data: &'a [u8]) -> (r: Reader<'a>)
        ensures
            r.wf(),
            r.source() == data@,
            r.remaining() == data@,
    {
        let r = Reader { data, pos: 0 };
        proof {
            assert(r.remaining() =~= data@);
        }
        r
    }

    /// Read one byte.
    pub fn read_u8(&mut self) -> (r: Result<u8, TsonError>)
        requires
            old(self).wf(),
        ensures
            final(self).wf(),
            final(self).source() == old(self).source(),
            match r {
                Ok(b) => old(self).remaining().len() >= 1 && b == old(self).remaining()[0]
                    && final(self).remaining() == old(self).remaining().skip(1),
                Err(e) => e == TsonError::TruncatedInput && old(self).remaining().len() < 1
                    && final(self).remaining() == old(self).remaining(),
            },
    {
        let ghost rem0 = self.remaining();
        if self.pos < self.data.len() {
            let b = self.data[self.pos];
            self.pos = self.pos + 1;
            proof {
                assert(self.remaining() =~= rem0.skip(1));
                assert(b == rem0[0]);
            }
            Ok(b)
        } else {
            Err(TsonError::TruncatedInput)
        }
    }

    /// Read a run of `n` raw bytes.
    pub fn read_bytes(&mut self, n: usize) -> (r: Result<Vec<u8>, TsonError>)
        requires
            old(self).wf(),
        ensures
            final(self).wf(),
            final(self).source() == old(self).source(),
            match r {
                Ok(v) => old(self).remaining().len() >= n && v@ == old(self).remaining().take(
                    n as int,
                ) && final(self).remaining() == old(self).remaining().skip(n as int),
                Err(e) => e == TsonError::TruncatedInput && old(self).remaining().len() < n
                    && final(self).remaining() == old(self).remaining(),
            },
    {
        let ghost rem0 = self.remaining();
        if self.data.len() - self.pos >= n {
            let mut v: Vec<u8> = Vec::new();
            let mut i: usize = 0;
            while i < n
                invariant
                    0 <= i <= n,
                    self.pos + n <= self.data@.len(),
                    self.data@.len() <= usize::MAX,
                    v@ == rem0.take(n as int).take(i as int),
                    rem0 == self.data@.skip(self.pos as int),
                    i <= rem0.len(),
                decreases n - i,
            {
                let b = self.data[self.pos + i];
                v.push(b);
                proof {
                    assert(rem0[i as int] == self.data@[self.pos + i]);
                    assert(rem0.take(n as int).take(i as int).push(rem0[i as int]) =~= rem0.take(
                        n as int,
                    ).take(i as int + 1));
                }
                i += 1;
            }
            self.pos = self.pos + n;
            proof {
                assert(rem0.take(n as int).take(n as int) =~= rem0.take(n as int));
                assert(self.remaining() =~= rem0.skip(n as int));
            }
            Ok(v)
        } else {
            Err(TsonError::TruncatedInput)
        }
    }

    /// Read an unsigned 16-bit integer, little-endian.
    pub fn read_u16(&mut self) -> (r: Result<u16, TsonError>)
        requires
            old(self).wf(),
        ensures
            final(self).wf(),
            final(self).source() == old(self).source(),
            match r {
                Ok(x) => old(self).remaining().len() >= 2 && x == spec_u16_from_le_bytes(
                    old(self).remaining().take(2),
                ) && final(self).remaining() == old(self).remaining().skip(2),
                Err(e) => e == TsonError::TruncatedInput && old(self).remaining().len() < 2
                    && final(self).remaining() == old(self).remaining(),
            },
    {
        let ghost rem0 = self.remaining();
        if self.data.len() - self.pos >= 2 {
            let s = &self.data[self.pos..self.pos + 2];
            let x = u16_from_le_bytes(s);
            self.pos = self.pos + 2;
            proof {
                assert(s@ =~= rem0.take(2));
                assert(self.remaining() =~= rem0.skip(2));
            }
            Ok(x)
        } else {
            Err(TsonError::TruncatedInput)
        }
    }

    /// Read an unsigned 32-bit integer, little-endian.
    pub fn read_u32(&mut self) -> (r: Result<u32, TsonError>)
        requires
            old(self).wf(),
        ensures
            final(self).wf(),
            final(self).source() == old(self).source(),
            match r {
                Ok(x) => old(self).remaining().len() >= 4 && x == spec_u32_from_le_bytes(
                    old(self).remaining().take(4),
                ) && final(self).remaining() == old(self).remaining().skip(4),
                Err(e) => e == TsonError::TruncatedInput && old(self).remaining().len() < 4
                    && final(self).remaining() == old(self).remaining(),
            },
    {
        let ghost rem0 = self.remaining();
        if self.data.len() - self.pos >= 4 {
            let s = &self.data[self.pos..self.pos + 4];
            let x = u32_from_le_bytes(s);
            self.pos = self.pos + 4;
            proof {
                assert(s@ =~= rem0.take(4));
                assert(self.remaining() =~= rem0.skip(4));
            }
            Ok(x)
        } else {
            Err(TsonError::TruncatedInput)
        }
    }

    /// Read an unsigned 64-bit integer, little-endian.
    pub fn read_u64(&mut self) -> (r: Result<u64, TsonError>)
        requires
            old(self).wf(),
        ensures
            final(self).wf(),
            final(self).source() == old(self).source(),
            match r {
                Ok(x) => old(self).remaining().len() >= 8 && x == spec_u64_from_le_bytes(
                    old(self).remaining().take(8),
                ) && final(self).remaining() == old(self).remaining().skip(8),
                Err(e) => e == TsonError::TruncatedInput && old(self).remaining().len() < 8
                    && final(self).remaining() == old(self).remaining(),
            },
    {
        let ghost rem0 = self.remaining();
        if self.data.len() - self.pos >= 8 {
            let s = &self.data[self.pos..self.pos + 8];
            let x = u64_from_le_bytes(s);
            self.pos = self.pos + 8;
            proof {
                assert(s@ =~= rem0.take(8));
                assert(self.remaining() =~= rem0.skip(8));
            }
            Ok(x)
        } else {
            Err(TsonError::TruncatedInput)
        }
    }

    /// Read a signed 8-bit integer, by its two's-complement bit pattern.
    pub fn read_i8(&mut self) -> (r: Result<i8, TsonError>)
        requires
            old(self).wf(),
        ensures
            final(self).wf(),
            final(self).source() == old(self).source(),
            match r {
                Ok(x) => old(self).remaining().len() >= 1 && x == spec_i8_from_le_bytes(
                    old(self).remaining().take(1),
                ) && final(self).remaining() == old(self).remaining().skip(1),
                Err(e) => e == TsonError::TruncatedInput && old(self).remaining().len() < 1
                    && final(self).remaining() == old(self).remaining(),
            },
    {
        let ghost rem0 = self.remaining();
        match self.read_u8() {
            Ok(b) => {
                proof {
                    assert(rem0.take(1)[0] == rem0[0]);
                }
                Ok(#[verifier::truncate] (b as i8))
            },
            Err(e) => Err(e),
        }
    }

    /// Read a signed 16-bit integer, little-endian two's complement.
    pub fn read_i16(&mut self) -> (r: Result<i16, TsonError>)
        requires
            old(self).wf(),
        ensures
            final(self).wf(),
            final(self).source() == old(self).source(),
            match r {
                Ok(x) => old(self).remaining().len() >= 2 && x == spec_i16_from_le_bytes(
                    old(self).remaining().take(2),
                ) && final(self).remaining() == old(self).remaining().skip(2),
                Err(e) => e == TsonError::TruncatedInput && old(self).remaining().len() < 2
                    && final(self).remaining() == old(self).remaining(),
            },
    {
        match self.read_u16() {
            Ok(x) => Ok(#[verifier::truncate] (x as i16)),
            Err(e) => Err(e),
        }
    }

    /// Read a signed 32-bit integer, little-endian two's complement.
    pub fn read_i32(&mut self) -> (r: Result<i32, TsonError>)
        requires
            old(self).wf(),
        ensures
            final(self).wf(),
            final(self).source() == old(self).source(),
            match r {
                Ok(x) => old(self).remaining().len() >= 4 && x == spec_i32_from_le_bytes(
                    old(self).remaining().take(4),
                ) && final(self).remaining() == old(self).remaining().skip(4),
                Err(e) => e == TsonError::TruncatedInput && old(self).remaining().len() < 4
                    && final(self).remaining() == old(self).remaining(),
            },
    {
        match self.read_u32() {
            Ok(x) => Ok(#[verifier::truncate] (x as i32)),
            Err(e) => Err(e),
        }
    }

    /// Read a signed 64-bit integer, little-endian two's complement.
    pub fn read_i64(&mut self) -> (r: Result<i64, TsonError>)
        requires
            old(self).wf(),
        ensures
            final(self).wf(),
            final(self).source() == old(self).source(),
            match r {
                Ok(x) => old(self).remaining().len() >= 8 && x == spec_i64_from_le_bytes(
                    old(self).remaining().take(8),
                ) && final(self).remaining() == old(self).remaining().skip(8),
                Err(e) => e == TsonError::TruncatedInput && old(self).remaining().len() < 8
                    && final(self).remaining() == old(self).remaining(),
            },
    {
        match self.read_u64() {
            Ok(x) => Ok(#[verifier::truncate] (x as i64)),
            Err(e) => Err(e),
        }
    }

    /// Drain the remainder of the source into `buf`.
    pub fn read_all(&mut self, buf: &mut Vec<u8>)
        requires
            old(self).wf(),
        ensures
            final(self).wf(),
            final(self).source() == old(self).source(),
            final(buf)@ == old(buf)@ + old(self).remaining(),
            final(self).remaining().len() == 0,
    {
        let ghost rem0 = self.remaining();
        let ghost buf0 = buf@;
        let ghost pos0 = self.pos as int;
        let ghost data0 = self.data@;
        proof {
            assert(buf0 + rem0.take(0) =~= buf0);
        }
        while self.pos < self.data.len()
            invariant
                0 <= pos0 <= self.pos as int <= data0.len(),
                self.data@ == data0,
                rem0 == data0.skip(pos0),
                buf@ == buf0 + rem0.take(self.pos as int - pos0),
            decreases data0.len() - self.pos,
        {
            let b = self.data[self.pos];
            buf.push(b);
            proof {
                let k = self.pos as int - pos0;
                assert(rem0.len() == data0.len() - pos0);
                assert(data0.skip(pos0)[k] == data0[k + pos0]);
                assert(buf0 + rem0.take(k) + seq![rem0[k]] =~= buf0 + rem0.take(k + 1));
            }
            self.pos = self.pos + 1;
        }
        proof {
            assert(rem0.take(self.pos as int - pos0) =~= rem0);
            assert(self.remaining() =~= Seq::<u8>::empty());
        }
    }
}

} // verus!
