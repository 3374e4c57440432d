//! A storage backend over an image held in memory.

use vstd::prelude::*;
use crate::buffer::{bytes_as_slice, bytes_content};
use crate::fs::Storage;

verus! {

/// How a read of a `RamStorage` fails.
#[derive(Debug, Clone, Copy, PartialEq, Eq)]
pub enum RamStorageError {
    /// The range asked for runs past the end of the buffer.
    OutOfBoundsAccess,
}

/// An image held in a shared byte buffer.
#[derive(Debug)]
pub struct RamStorage {
    bytes: bytes::Bytes,
}

impl RamStorage {
    pub fn new(bytes: bytes::Bytes) -> (r: Self)
        ensures
            r.contents() == bytes_content(bytes),
    {
        RamStorage { bytes }
    }
}

impl Storage for RamStorage {
    type Error = RamStorageError;

    closed spec fn contents(&self) -> Seq<u8> {
        bytes_content(self.bytes)
    }

    /// Reads inside the buffer cannot fail.
    open spec fn infallible(&self) -> bool {
        true
    }

    fn capacity(&self) -> (r: usize) {
        bytes_as_slice(&self.bytes).len()
    }

    fn read(&self, off: usize, buf: &mut [u8]) -> (r: Result<(), RamStorageError>) {
        let src = bytes_as_slice(&self.bytes);
        if off > src.len() || buf.len() > src.len() - off {
            return Err(RamStorageError::OutOfBoundsAccess);
        }
        let mut k: usize = 0;
        while k < buf.len()
            invariant
                off + buf@.len() <= src@.len() <= usize::MAX,
                buf@.len() == old(buf)@.len(),
                k <= buf@.len(),
                forall|i: int| 0 <= i < k ==> buf@[i] == src@[off + i],
            decreases buf@.len() - k,
        {
            buf[k] = src[off + k];
            k += 1;
        }
        assert(buf@ =~= src@.subrange(off as int, off + buf@.len()));
        Ok(())
    }
}

} // verus!
