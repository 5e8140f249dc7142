//! An adapter that lets a FAT file system library use any I/O device that
//! can read, write and seek.
use vstd::prelude::*;

verus! {

/// Wraps an I/O device for a FAT file system.
pub struct FatFsAdapter<IO>(IO);

impl<IO> FatFsAdapter<IO> {
    /// The device.
    pub closed spec fn device(&self) -> IO {
        self.0
    }

    pub fn new(io: IO) -> (a: FatFsAdapter<IO>)
        ensures
            a.device() == io,
    {
        FatFsAdapter(io)
    }

    /// Gives the device back.
    pub fn into_inner(self) -> (io: IO)
        ensures
            io == self.device(),
    {
        self.0
    }
}

} // verus!
