//! Block devices: byte-addressable sinks that records are appended to.

use crate::codec::put_bytes;
use crate::storage::{Error, Position};
use vstd::prelude::*;
use vstd::slice::slice_subrange;

verus! {

/// A byte-addressable device that grows at its end. A failed operation
/// leaves the bytes as they were.
pub trait Device: Sized {
    /// The bytes on the device.
    spec fn bytes(&self) -> Seq<u8>;

    /// Whether operations on this device fail only for want of room or
    /// for reaching beyond its end.
    spec fn reliable(&self) -> bool;

    /// The greatest number of bytes that the device can hold.
    spec fn limit(&self) -> nat;

    /// Number of bytes on the device.
    fn len(&self) -> (r: Result<u64, Error>)
        ensures
            self.reliable() ==> r is Ok,
            r matches Ok(n) ==> n == self.bytes().len(),
    ;

    /// A copy of the `len` bytes from `at` on.
    fn read_exact(&self, at: Position, len: usize) -> (r: Result<Vec<u8>, Error>)
        ensures
            self.reliable() && at + len <= self.bytes().len() ==> r is Ok,
            r matches Ok(data) ==> at + len <= self.bytes().len() && data@
                == self.bytes().subrange(at as int, at + len),
    ;

    /// Replaces the bytes from `at` on by `data`, within the device.
    fn write(&mut self, at: Position, data: &[u8]) -> (r: Result<(), Error>)
        ensures
            final(self).reliable() == old(self).reliable(),
            final(self).limit() == old(self).limit(),
            old(self).reliable() && at + data@.len() <= old(self).bytes().len() ==> r is Ok,
            match r {
                Ok(()) => at + data@.len() <= old(self).bytes().len() && final(self).bytes()
                    == old(self).bytes().subrange(0, at as int) + data@ + old(
                    self,
                ).bytes().subrange(at + data@.len(), old(self).bytes().len() as int),
                Err(_) => final(self).bytes() == old(self).bytes(),
            },
    ;

    /// Adds `data` at the end and returns where it begins.
    fn append(&mut self, data: &[u8]) -> (r: Result<Position, Error>)
        ensures
            final(self).reliable() == old(self).reliable(),
            final(self).limit() == old(self).limit(),
            old(self).reliable() && old(self).bytes().len() + data@.len() <= old(self).limit()
                ==> r is Ok,
            match r {
                Ok(at) => at == old(self).bytes().len() && final(self).bytes() == old(
                    self,
                ).bytes() + data@,
                Err(_) => final(self).bytes() == old(self).bytes(),
            },
    ;

    /// Cuts the device down to its first `len` bytes.
    fn truncate(&mut self, len: Position) -> (r: Result<(), Error>)
        ensures
            final(self).reliable() == old(self).reliable(),
            final(self).limit() == old(self).limit(),
            old(self).reliable() && len <= old(self).bytes().len() ==> r is Ok,
            match r {
                Ok(()) => len <= old(self).bytes().len() && final(self).bytes() == old(
                    self,
                ).bytes().subrange(0, len as int),
                Err(_) => final(self).bytes() == old(self).bytes(),
            },
    ;

    /// Makes what was written durable.
    fn sync(&mut self) -> (r: Result<(), Error>)
        ensures
            final(self).bytes() == old(self).bytes(),
            final(self).reliable() == old(self).reliable(),
            final(self).limit() == old(self).limit(),
            old(self).reliable() ==> r is Ok,
    ;
}

/// A device in memory.
pub struct MemoryDevice {
    buffer: Vec<u8>,
}

impl MemoryDevice {
    /// The bytes held.
    pub closed spec fn contents(&self) -> Seq<u8> {
        self.buffer@
    }

    /// An empty device.
    pub fn new() -> (d: Self)
        ensures
            d.contents() == Seq::<u8>::empty(),
    {
        MemoryDevice { buffer: Vec::new() }
    }

    /// An empty device with room for `capacity` bytes set aside.
    pub fn with_capacity(capacity: usize) -> (d: Self)
        ensures
            d.contents() == Seq::<u8>::empty(),
    {
        MemoryDevice { buffer: Vec::with_capacity(capacity) }
    }

    /// A device that holds `bytes`.
    pub fn from_bytes(bytes: Vec<u8>) -> (d: Self)
        ensures
            d.contents() == bytes@,
    {
        MemoryDevice { buffer: bytes }
    }

    /// The bytes held.
    pub fn as_slice(&self) -> (bytes: &[u8])
        ensures
            bytes@ == self.contents(),
    {
        self.buffer.as_slice()
    }

    /// Gives the bytes back.
    pub fn into_bytes(self) -> (bytes: Vec<u8>)
        ensures
            bytes@ == self.contents(),
    {
        self.buffer
    }

    /// What the device is as a device: its bytes are its contents, it is
    /// reliable, and it takes as many bytes as a position can count.
    pub proof fn lemma_view(&self)
        ensures
            self.bytes() == self.contents(),
            self.reliable(),
            self.limit() == if usize::MAX < Position::MAX {
                usize::MAX as nat
            } else {
                Position::MAX as nat
            },
    {
    }
}

impl Device for MemoryDevice {
    closed spec fn bytes(&self) -> Seq<u8> {
        self.buffer@
    }

    open spec fn reliable(&self) -> bool {
        true
    }

    closed spec fn limit(&self) -> nat {
        if usize::MAX < Position::MAX {
            usize::MAX as nat
        } else {
            Position::MAX as nat
        }
    }

    fn len(&self) -> (r: Result<u64, Error>) {
        Ok(self.buffer.len() as u64)
    }

    fn read_exact(&self, at: Position, len: usize) -> (r: Result<Vec<u8>, Error>) {
        let total = self.buffer.len();
        if at > total as u64 || len > total - (at as usize) {
            return Err(Error::Io);
        }
        let start = at as usize;
        let mut data: Vec<u8> = Vec::new();
        put_bytes(&mut data, slice_subrange(self.buffer.as_slice(), start, start + len));
        Ok(data)
    }

    fn write(&mut self, at: Position, data: &[u8]) -> (r: Result<(), Error>) {
        let total = self.buffer.len();
        if at > total as u64 || data.len() > total - (at as usize) {
            return Err(Error::Io);
        }
        let start = at as usize;
        let mut k: usize = 0;
        while k < data.len()
            invariant
                k <= data@.len(),
                start + data@.len() <= total,
                self.buffer@.len() == total == old(self).buffer@.len(),
                forall|x: int| 0 <= x < start ==> self.buffer@[x] == old(self).buffer@[x],
                forall|x: int| start <= x < start + k ==> self.buffer@[x] == data@[x - start],
                forall|x: int| start + k <= x < total ==> self.buffer@[x] == old(self).buffer@[x],
            decreases data@.len() - k,
        {
            self.buffer[start + k] = data[k];
            k += 1;
        }
        assert(self.buffer@ =~= old(self).buffer@.subrange(0, at as int) + data@ + old(
            self,
        ).buffer@.subrange(at + data@.len(), total as int));
        Ok(())
    }

    fn append(&mut self, data: &[u8]) -> (r: Result<Position, Error>) {
        let total = self.buffer.len();
        if data.len() > usize::MAX - total {
            return Err(Error::Capacity);
        }
        put_bytes(&mut self.buffer, data);
        Ok(total as u64)
    }

    fn truncate(&mut self, len: Position) -> (r: Result<(), Error>) {
        if len > self.buffer.len() as u64 {
            return Err(Error::Io);
        }
        self.buffer.truncate(len as usize);
        Ok(())
    }

    fn sync(&mut self) -> (r: Result<(), Error>) {
        Ok(())
    }
}

} // verus!
