//! Block storage.
use vstd::prelude::*;

verus! {

/// A device that stores 512-byte blocks by number.
pub trait Memento {
    /// Reads block `block` into `buf`.
    fn recall(&mut self, block: u64, buf: &mut [u8; 512]);

    /// Writes `buf` as block `block`.
    fn remember(&mut self, block: u64, buf: &[u8; 512]);
}

} // verus!
