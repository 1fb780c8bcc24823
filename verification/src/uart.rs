//! Handle for the memory-mapped character device used for diagnostic
//! output. The core only records the device's base address; the actual
//! register programming is hardware I/O and lives outside the verified
//! library.

use vstd::prelude::*;

verus! {

/// A character device located at a fixed machine address.
pub struct Uart {
    base_addr: usize,
}

impl Uart {
    /// The machine address this handle was created with.
    pub closed spec fn spec_base_addr(&self) -> usize {
        self.base_addr
    }

    pub fn new(base_addr: usize) -> (r: Self)
        ensures
            r.spec_base_addr() == base_addr,
    {
        Uart { base_addr }
    }

    /// Reads back the base address, e.g. for an I/O layer that programs
    /// the device registers itself.
    pub fn base_addr(&self) -> (r: usize)
        ensures
            r == self.spec_base_addr(),
    {
        self.base_addr
    }
}

} // verus!
