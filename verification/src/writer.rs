use vstd::prelude::*;
use vstd::bytes::*;
use crate::error::TsonError;
use crate::wire::{spec_i8_to_le_bytes, spec_i16_to_le_bytes, spec_i32_to_le_bytes, spec_i64_to_le_bytes};

verus! {

/// An abstract byte sink. The encoder's single traversal runs against this
/// trait twice: once with a `CountWriter` to compute the exact output size,
/// once with a `BufWriter` to materialize the bytes. Both see the identical
/// sequence of writes, so the size estimate and the real output agree by
/// construction.
pub trait Writer: Sized {
    /// The bytes written so far.
    spec fn out(&self) -> Seq<u8>;

    /// The writer's internal invariant.
    spec fn inv(&self) -> bool;

    /// Whether this writer accepts every write: a writer that may refuse one
    /// (with `TooLarge`) reports `false`.
    spec fn total(&self) -> bool;

    /// Append one byte.
    fn add_u8(&mut self, b: u8) -> (r: Result<(), TsonError>)
        requires
            old(self).inv(),
        ensures
            final(self).inv(),
            final(self).total() == old(self).total(),
            match r {
                Ok(()) => final(self).out() == old(self).out().push(b),
                Err(e) => e == TsonError::TooLarge && !old(self).total() && final(self).out()
                    == old(self).out() && old(self).out().len() + 1 > usize::MAX,
            },
    ;

    /// Append a run of bytes.
    fn put_slice(&mut self, s: &[u8]) -> (r: Result<(), TsonError>)
        requires
            old(self).inv(),
        ensures
            final(self).inv(),
            final(self).total() == old(self).total(),
            match r {
                Ok(()) => final(self).out() == old(self).out() + s@,
                Err(e) => e == TsonError::TooLarge && !old(self).total() && final(self).out()
                    == old(self).out() && old(self).out().len() + s@.len() > usize::MAX,
            },
    ;

    /// Append an unsigned 16-bit integer, little-endian.
    fn add_u16(&mut self, x: u16) -> (r: Result<(), TsonError>)
        requires
            old(self).inv(),
        ensures
            final(self).inv(),
            final(self).total() == old(self).total(),
            match r {
                Ok(()) => final(self).out() == old(self).out() + spec_u16_to_le_bytes(x),
                Err(e) => e == TsonError::TooLarge && !old(self).total() && final(self).out()
                    == old(self).out() && old(self).out().len() + spec_u16_to_le_bytes(x).len()
                    > usize::MAX,
            },
    {
        let bs = u16_to_le_bytes(x);
        self.put_slice(bs.as_slice())
    }

    /// Append an unsigned 32-bit integer, little-endian.
    fn add_u32(&mut self, x: u32) -> (r: Result<(), TsonError>)
        requires
            old(self).inv(),
        ensures
            final(self).inv(),
            final(self).total() == old(self).total(),
            match r {
                Ok(()) => final(self).out() == old(self).out() + spec_u32_to_le_bytes(x),
                Err(e) => e == TsonError::TooLarge && !old(self).total() && final(self).out()
                    == old(self).out() && old(self).out().len() + spec_u32_to_le_bytes(x).len()
                    > usize::MAX,
            },
    {
        let bs = u32_to_le_bytes(x);
        self.put_slice(bs.as_slice())
    }

    /// Append an unsigned 64-bit integer, little-endian.
    fn add_u64(&mut self, x: u64) -> (r: Result<(), TsonError>)
        requires
            old(self).inv(),
        ensures
            final(self).inv(),
            final(self).total() == old(self).total(),
            match r {
                Ok(()) => final(self).out() == old(self).out() + spec_u64_to_le_bytes(x),
                Err(e) => e == TsonError::TooLarge && !old(self).total() && final(self).out()
                    == old(self).out() && old(self).out().len() + spec_u64_to_le_bytes(x).len()
                    > usize::MAX,
            },
    {
        let bs = u64_to_le_bytes(x);
        self.put_slice(bs.as_slice())
    }

    /// Append a signed 8-bit integer, by its two's-complement bit pattern.
    fn add_i8(&mut self, x: i8) -> (r: Result<(), TsonError>)
        requires
            old(self).inv(),
        ensures
            final(self).inv(),
            final(self).total() == old(self).total(),
            match r {
                Ok(()) => final(self).out() == old(self).out() + spec_i8_to_le_bytes(x),
                Err(e) => e == TsonError::TooLarge && !old(self).total() && final(self).out()
                    == old(self).out() && old(self).out().len() + 1 > usize::MAX,
            },
    {
        let r = self.add_u8(#[verifier::truncate] (x as u8));
        proof {
            if r is Ok {
                assert(final(self).out() =~= old(self).out() + spec_i8_to_le_bytes(x));
            }
        }
        r
    }

    /// Append a signed 16-bit integer, little-endian two's complement.
    fn add_i16(&mut self, x: i16) -> (r: Result<(), TsonError>)
        requires
            old(self).inv(),
        ensures
            final(self).inv(),
            final(self).total() == old(self).total(),
            match r {
                Ok(()) => final(self).out() == old(self).out() + spec_i16_to_le_bytes(x),
                Err(e) => e == TsonError::TooLarge && !old(self).total() && final(self).out()
                    == old(self).out() && old(self).out().len() + spec_i16_to_le_bytes(x).len()
                    > usize::MAX,
            },
    {
        self.add_u16(#[verifier::truncate] (x as u16))
    }

    /// Append a signed 32-bit integer, little-endian two's complement.
    fn add_i32(&mut self, x: i32) -> (r: Result<(), TsonError>)
        requires
            old(self).inv(),
        ensures
            final(self).inv(),
            final(self).total() == old(self).total(),
            match r {
                Ok(()) => final(self).out() == old(self).out() + spec_i32_to_le_bytes(x),
                Err(e) => e == TsonError::TooLarge && !old(self).total() && final(self).out()
                    == old(self).out() && old(self).out().len() + spec_i32_to_le_bytes(x).len()
                    > usize::MAX,
            },
    {
        self.add_u32(#[verifier::truncate] (x as u32))
    }

    /// Append a signed 64-bit integer, little-endian two's complement.
    fn add_i64(&mut self, x: i64) -> (r: Result<(), TsonError>)
        requires
            old(self).inv(),
        ensures
            final(self).inv(),
            final(self).total() == old(self).total(),
            match r {
                Ok(()) => final(self).out() == old(self).out() + spec_i64_to_le_bytes(x),
                Err(e) => e == TsonError::TooLarge && !old(self).total() && final(self).out()
                    == old(self).out() && old(self).out().len() + spec_i64_to_le_bytes(x).len()
                    > usize::MAX,
            },
    {
        self.add_u64(#[verifier::truncate] (x as u64))
    }
}

/// A counting sink: accumulates only the total length of what is written and
/// materializes nothing. The bytes exist in ghost form alone, so the count
/// can be proved equal to the length of the byte stream the traversal
/// describes.
pub struct CountWriter {
    /// The number of bytes counted so far.
    pub size: usize,
    /// The counted bytes, ghost only.
    pub bytes: Ghost<Seq<u8>>,
}

impl CountWriter {
    pub fn new() -> (r: CountWriter)
        ensures
            r.inv(),
            r.out() == Seq::<u8>::empty(),
            r.size == 0,
    {
        CountWriter { size: 0, bytes: Ghost(Seq::empty()) }
    }
}

impl Writer for CountWriter {
    open spec fn out(&self) -> Seq<u8> {
        self.bytes@
    }

    open spec fn inv(&self) -> bool {
        self.size == self.bytes@.len()
    }

    open spec fn total(&self) -> bool {
        false
    }

    fn add_u8(&mut self, b: u8) -> (r: Result<(), TsonError>) {
        match self.size.checked_add(1) {
            Some(n) => {
                self.size = n;
                self.bytes = Ghost(self.bytes@.push(b));
                Ok(())
            },
            None => Err(TsonError::TooLarge),
        }
    }

    fn put_slice(&mut self, s: &[u8]) -> (r: Result<(), TsonError>) {
        match self.size.checked_add(s.len()) {
            Some(n) => {
                self.size = n;
                self.bytes = Ghost(self.bytes@ + s@);
                Ok(())
            },
            None => Err(TsonError::TooLarge),
        }
    }
}

/// A materializing sink: appends every write to a byte buffer.
pub struct BufWriter {
    /// The bytes written so far.
    pub buf: Vec<u8>,
}

impl BufWriter {
    pub fn new() -> (r: BufWriter)
        ensures
            r.inv(),
            r.out() == Seq::<u8>::empty(),
    {
        BufWriter { buf: Vec::new() }
    }

    /// A fresh sink whose buffer has room for `n` bytes already reserved, for
    /// the encoder's exact-allocation second pass.
    pub fn with_capacity(n: usize) -> (r: BufWriter)
        ensures
            r.inv(),
            r.out() == Seq::<u8>::empty(),
    {
        BufWriter { buf: Vec::with_capacity(n) }
    }

    /// Hand the written bytes to the caller.
    pub fn into_vec(self) -> (r: Vec<u8>)
        ensures
            r@ == self.out(),
    {
        self.buf
    }
}

impl Writer for BufWriter {
    open spec fn out(&self) -> Seq<u8> {
        self.buf@
    }

    open spec fn inv(&self) -> bool {
        true
    }

    open spec fn total(&self) -> bool {
        true
    }

    fn add_u8(&mut self, b: u8) -> (r: Result<(), TsonError>) {
        self.buf.push(b);
        Ok(())
    }

    fn put_slice(&mut self, s: &[u8]) -> (r: Result<(), TsonError>) {
        let ghost buf0 = self.buf@;
        let n = s.len();
        let mut i: usize = 0;
        while i < n
            invariant
                n == s@.len(),
                0 <= i <= n,
                self.buf@ == buf0 + s@.take(i as int),
            decreases n - i,
        {
            self.buf.push(s[i]);
            proof {
                assert(buf0 + s@.take(i as int) + seq![s@[i as int]] =~= buf0 + s@.take(
                    i as int + 1,
                ));
            }
            i += 1;
        }
        proof {
            assert(buf0 + s@.take(n as int) =~= buf0 + s@);
        }
        Ok(())
    }
}

} // verus!
