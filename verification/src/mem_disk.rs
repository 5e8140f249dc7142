//! A sector device held in memory, with the checks of the ATA driver.
use vstd::prelude::*;
use crate::ata::{Disk, DiskError, check_transfer, spec_check_transfer, update_bytes};

verus! {

/// A disk whose sectors live in a byte vector.
pub struct MemDisk {
    bytes: Vec<u8>,
}

impl MemDisk {
    /// A zeroed disk of `size` bytes.
    pub fn new(size: usize) -> (d: MemDisk)
        ensures
            d.contents() == Seq::new(size as nat, |i: int| 0u8),
    {
        let mut bytes: Vec<u8> = Vec::new();
        let mut i: usize = 0;
        while i < size
            invariant
                i <= size,
                bytes@ == Seq::new(i as nat, |j: int| 0u8),
            decreases size - i,
        {
            bytes.push(0u8);
            i += 1;
        }
        MemDisk { bytes }
    }

    /// The range of a transfer of `len` bytes at sector `block`, where it
    /// lies on a disk of `size` bytes.
    fn span(block: u64, len: usize, size: usize) -> (r: Option<usize>)
        ensures
            r matches Some(start) ==> start == block * 512 && start + len <= size,
            r is None ==> block * 512 + len > size,
    {
        if len > size {
            return None;
        }
        let room: usize = size - len;
        let max_block: u64 = (room / 512) as u64;
        if block > max_block {
            proof {
                assert(block * 512 >= (max_block + 1) * 512) by (nonlinear_arith)
                    requires block >= max_block + 1;
                assert((max_block + 1) * 512 > room) by (nonlinear_arith)
                    requires max_block == room / 512;
            }
            None
        } else {
            proof {
                assert(block * 512 <= max_block * 512) by (nonlinear_arith)
                    requires block <= max_block;
                assert(max_block * 512 <= room) by (nonlinear_arith)
                    requires max_block == room / 512;
            }
            Some((block as usize) * 512)
        }
    }
}

impl Disk for MemDisk {
    closed spec fn contents(&self) -> Seq<u8> {
        self.bytes@
    }

    /// Memory moves every sector it holds.
    open spec fn reliable(&self) -> bool {
        true
    }

    fn len(&self) -> (n: usize) {
        self.bytes.len()
    }

    /// Fails as the ATA driver does on a bad buffer, and with `OutOfRange`
    /// past the end; otherwise moves every sector asked for.
    fn read(&self, block: u64, buffer: &mut Vec<u8>) -> (r: Result<u8, DiskError>)
        ensures
            r == (match spec_check_transfer(old(buffer)@.len() as int) {
                Err(e) => Err(e),
                Ok(n) => if block * 512 + old(buffer)@.len() <= self.contents().len() {
                    Ok(n)
                } else {
                    Err(DiskError::OutOfRange)
                },
            }),
            r is Ok ==> final(buffer)@ == self.contents().subrange(
                block * 512,
                block * 512 + old(buffer)@.len(),
            ),
    {
        let count = match check_transfer(buffer.len()) {
            Err(e) => return Err(e),
            Ok(n) => n,
        };
        let start = match Self::span(block, buffer.len(), self.bytes.len()) {
            None => return Err(DiskError::OutOfRange),
            Some(s) => s,
        };
        let len = buffer.len();
        let mut i: usize = 0;
        while i < len
            invariant
                i <= len,
                len == buffer@.len(),
                start + len <= self.bytes.len(),
                forall|j: int| 0 <= j < i ==> buffer@[j] == self.bytes@[start + j],
            decreases len - i,
        {
            buffer.set(i, self.bytes[start + i]);
            i += 1;
        }
        proof {
            assert(buffer@ =~= self.bytes@.subrange(start as int, start + len));
            assert(buffer@.subrange(0, count * 512) =~= buffer@);
        }
        Ok(count)
    }

    fn write(&mut self, block: u64, buffer: &Vec<u8>) -> (r: Result<u8, DiskError>)
        ensures
            r == (match spec_check_transfer(buffer@.len() as int) {
                Err(e) => Err(e),
                Ok(n) => if block * 512 + buffer@.len() <= old(self).contents().len() {
                    Ok(n)
                } else {
                    Err(DiskError::OutOfRange)
                },
            }),
            r is Err ==> final(self).contents() == old(self).contents(),
            r is Ok ==> final(self).contents() == update_bytes(
                old(self).contents(),
                block * 512,
                buffer@,
            ),
    {
        let count = match check_transfer(buffer.len()) {
            Err(e) => return Err(e),
            Ok(n) => n,
        };
        let start = match Self::span(block, buffer.len(), self.bytes.len()) {
            None => return Err(DiskError::OutOfRange),
            Some(s) => s,
        };
        let len = buffer.len();
        let ghost before = self.bytes@;
        let mut i: usize = 0;
        while i < len
            invariant
                i <= len,
                len == buffer@.len(),
                start + len <= before.len(),
                before.len() == self.bytes.len(),
                self.bytes@.len() == before.len(),
                forall|j: int|
                    0 <= j < before.len() ==> #[trigger] self.bytes@[j] == if start <= j < start
                        + i {
                        buffer@[j - start]
                    } else {
                        before[j]
                    },
            decreases len - i,
        {
            self.bytes.set(start + i, buffer[i]);
            i += 1;
        }
        proof {
            assert(self.bytes@ =~= update_bytes(before, start as int, buffer@));
            assert(buffer@.subrange(0, count * 512) =~= buffer@);
        }
        Ok(count)
    }
}

} // verus!
