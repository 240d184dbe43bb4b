//! A flat store: one run of bytes, addressed from zero.

use crate::errors::{unexpected_eof, Error};
use std::ops::Range;
use vstd::prelude::*;

verus! {

/// One run of bytes, addressed from zero, that is written in place.
pub struct Image {
    data: Vec<u8>,
}

/// A run of bytes after `bytes` was written at `addr`: the run reaches at
/// least to the end of what was written, holds zero where nothing had been
/// written before, and holds `bytes` from `addr` on. A write of nothing
/// leaves the run as it is.
pub open spec fn overlay(data: Seq<u8>, addr: int, bytes: Seq<u8>) -> Seq<u8> {
    if bytes.len() == 0 {
        data
    } else {
        Seq::new(
            if data.len() >= addr + bytes.len() {
                data.len()
            } else {
                (addr + bytes.len()) as nat
            },
            |i: int|
                if addr <= i < addr + bytes.len() {
                    bytes[i - addr]
                } else if i < data.len() {
                    data[i]
                } else {
                    0u8
                },
        )
    }
}

impl View for Image {
    type V = Seq<u8>;

    closed spec fn view(&self) -> Seq<u8> {
        self.data@
    }
}

impl Image {
    /// The store over the given bytes.
    pub fn new(stream: Vec<u8>) -> (r: Self)
        ensures
            r@ == stream@,
    {
        Image { data: stream }
    }

    /// Writes `bytes` at address `addr`, over what is there, growing the
    /// store where the write reaches past its end. What lies between the old
    /// end and the start of the write reads as zero.
    pub fn write(&mut self, addr: u64, bytes: &[u8]) -> (r: Result<(), Error>)
        requires
            addr + bytes@.len() <= usize::MAX,
        ensures
            r is Ok,
            final(self)@ == overlay(old(self)@, addr as int, bytes@),
    {
        if bytes.len() == 0 {
            return Ok(());
        }
        let start: usize = addr as usize;
        let end: usize = start + bytes.len();
        let ghost before = self.data@;
        while self.data.len() < end
            invariant
                before.len() <= self.data@.len(),
                self.data@.len() <= end || self.data@.len() == before.len(),
                forall|i: int|
                    0 <= i < self.data@.len() ==> #[trigger] self.data@[i] == if i < before.len() {
                        before[i]
                    } else {
                        0u8
                    },
            decreases end - self.data.len(),
        {
            self.data.push(0);
        }
        let ghost padded = self.data@;
        let mut j: usize = 0;
        while j < bytes.len()
            invariant
                j <= bytes.len(),
                end == start + bytes.len(),
                end <= self.data@.len(),
                self.data@.len() == padded.len(),
                forall|i: int|
                    0 <= i < self.data@.len() ==> #[trigger] self.data@[i] == if start <= i < start
                        + j {
                        bytes@[i - start]
                    } else {
                        padded[i]
                    },
            decreases bytes.len() - j,
        {
            self.data.set(start + j, bytes[j]);
            j += 1;
        }
        proof {
            assert(self.data@ =~= overlay(before, addr as int, bytes@));
        }
        Ok(())
    }

    /// The bytes at the addresses of `addrs`. A range that reaches past the
    /// end of the store fails with an `IOError`; an empty range gives no
    /// bytes, wherever it lies.
    pub fn read(&mut self, addrs: Range<u64>) -> (r: Result<Vec<u8>, Error>)
        requires
            addrs.start <= addrs.end,
            addrs.end - addrs.start <= usize::MAX,
        ensures
            final(self)@ == old(self)@,
            match r {
                Ok(bytes) => {
                    &&& addrs.start == addrs.end || addrs.end <= old(self)@.len()
                    &&& bytes@ == if addrs.start == addrs.end {
                        Seq::<u8>::empty()
                    } else {
                        old(self)@.subrange(addrs.start as int, addrs.end as int)
                    }
                },
                Err(e) => addrs.start < addrs.end && addrs.end > old(self)@.len() && e is IOError,
            },
    {
        let mut out: Vec<u8> = Vec::new();
        if addrs.start == addrs.end {
            return Ok(out);
        }
        if addrs.end > self.data.len() as u64 {
            return Err(unexpected_eof());
        }
        let start: usize = addrs.start as usize;
        let end: usize = addrs.end as usize;
        out.extend_from_slice(&self.data[start..end]);
        assert(out@ =~= self.data@.subrange(start as int, end as int));
        Ok(out)
    }
}

} // verus!
