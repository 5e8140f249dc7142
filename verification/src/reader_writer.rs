//! A byte stream with a cursor over a sector device: reads and writes of any
//! length at any offset, done as whole-sector transfers.
use vstd::prelude::*;
use crate::ata::{Disk, DiskError, update_bytes};

verus! {

/// Where a seek counts from.
#[derive(PartialEq, Eq, Structural, Clone, Copy, Debug)]
pub enum SeekFrom {
    Start(usize),
    Current(usize),
    End(usize),
}

/// Why a stream operation failed.
#[derive(PartialEq, Eq, Structural, Clone, Copy, Debug)]
pub enum IoError {
    /// The device refused the transfer.
    Disk(DiskError),
    /// The byte range does not fit in the address space.
    Overflow,
}

/// The offset a seek moves to, from the cursor `pos` on a device of `len`
/// bytes.
pub open spec fn seek_target(pos: int, len: int, position: SeekFrom) -> int {
    match position {
        SeekFrom::Start(n) => n as int,
        SeekFrom::Current(n) => pos + n,
        SeekFrom::End(n) => len + n,
    }
}

/// One past the last sector that a transfer of `len` bytes at `pos`
/// touches.
pub open spec fn end_sector(pos: int, len: int) -> int {
    if (pos + len) % 512 == 0 {
        (pos + len) / 512
    } else {
        (pos + len) / 512 + 1
    }
}

/// Whether `len` bytes at `pos` make one transfer a device of `size` bytes
/// takes whole: at least one byte, sectors that lie on the device, and no
/// more of them than one command moves.
pub open spec fn fits_one_transfer(pos: int, len: int, size: int) -> bool {
    &&& 0 < len
    &&& 0 <= pos
    &&& pos + len <= usize::MAX
    &&& end_sector(pos, len) * 512 <= size
    &&& end_sector(pos, len) - pos / 512 <= 127
}

/// A cursor over a sector device.
pub struct ReaderWriter<D: Disk> {
    disk: D,
    offset: usize,
}

proof fn lemma_sector_span(offset: int, len: int, sb: int, eb: int)
    requires
        0 <= offset,
        0 <= len,
        sb == offset / 512,
        eb == (if (offset + len) % 512 == 0 {
            (offset + len) / 512
        } else {
            (offset + len) / 512 + 1
        }),
    ensures
        sb * 512 <= offset,
        offset + len <= eb * 512,
        sb <= eb,
        offset - sb * 512 + len <= (eb - sb) * 512,
{
    assert(sb * 512 <= offset) by (nonlinear_arith)
        requires sb == offset / 512, offset >= 0;
    assert(offset + len <= eb * 512) by (nonlinear_arith)
        requires
            eb == (if (offset + len) % 512 == 0 {
                (offset + len) / 512
            } else {
                (offset + len) / 512 + 1
            }),
            offset + len >= 0;
    assert(sb <= eb) by (nonlinear_arith)
        requires sb == offset / 512, sb * 512 <= offset, offset + len <= eb * 512, len >= 0;
    assert((eb - sb) * 512 == eb * 512 - sb * 512) by (nonlinear_arith);
}

impl<D: Disk> ReaderWriter<D> {
    /// The bytes of the device.
    pub closed spec fn contents(&self) -> Seq<u8> {
        self.disk.contents()
    }

    /// The cursor.
    pub closed spec fn position(&self) -> usize {
        self.offset
    }

    /// Whether the device moves every sector asked for.
    pub closed spec fn reliable(&self) -> bool {
        self.disk.reliable()
    }

    /// A stream over `disk` with its cursor at 0.
    pub fn new(disk: D) -> (rw: ReaderWriter<D>)
        ensures
            rw.contents() == disk.contents(),
            rw.reliable() == disk.reliable(),
            rw.position() == 0,
    {
        ReaderWriter { disk: disk, offset: 0 }
    }

    /// Size of the device in bytes.
    pub fn len(&self) -> (n: usize)
        ensures
            n == self.contents().len(),
    {
        self.disk.len()
    }

    /// Fills `buf` with the bytes at the cursor and moves the cursor past
    /// them. The sectors that hold those bytes are read whole; the count of
    /// sectors the device reports is not looked at, so on a device that
    /// moves fewer the bytes of the sectors it left out are whatever it
    /// left in the buffer.
    pub fn read(&mut self, buf: &mut Vec<u8>) -> (r: Result<usize, IoError>)
        ensures
            final(buf)@.len() == old(buf)@.len(),
            final(self).contents() == old(self).contents(),
            final(self).reliable() == old(self).reliable(),
            old(self).reliable() && fits_one_transfer(
                old(self).position() as int,
                old(buf)@.len() as int,
                old(self).contents().len() as int,
            ) ==> r is Ok,
            match r {
                Ok(n) => {
                    &&& n == old(buf)@.len()
                    &&& final(self).position() == old(self).position() + n
                    &&& old(self).reliable() ==> {
                        &&& old(self).position() + n <= old(self).contents().len()
                        &&& final(buf)@ == old(self).contents().subrange(
                            old(self).position() as int,
                            old(self).position() + n,
                        )
                    }
                },
                Err(_) => final(self).position() == old(self).position(),
            },
    {
        let len = buf.len();
        let end = match self.offset.checked_add(len) {
            None => return Err(IoError::Overflow),
            Some(e) => e,
        };
        let start_block = self.offset / 512;
        let end_block = if end % 512 == 0 {
            end / 512
        } else {
            end / 512 + 1
        };
        proof {
            lemma_sector_span(self.offset as int, len as int, start_block as int, end_block as int);
        }
        let count = end_block - start_block;
        if count > usize::MAX / 512 {
            return Err(IoError::Overflow);
        }
        let size = count * 512;
        let mut buffer: Vec<u8> = vec![0u8; size];
        let ghost rel = self.disk.reliable();
        match self.disk.read(start_block as u64, &mut buffer) {
            Err(e) => return Err(IoError::Disk(e)),
            Ok(_) => {},
        };
        let slice_start = self.offset - start_block * 512;
        let ghost c = self.disk.contents();
        proof {
            if rel {
                assert(buffer@.subrange(0, size as int) =~= buffer@);
                assert forall|k: int| 0 <= k < size implies buffer@[k] == c[start_block * 512 + k] by {
                    assert(buffer@.subrange(0, size as int)[k] == c.subrange(
                        start_block * 512,
                        start_block * 512 + size,
                    )[k]);
                }
            }
        }
        let mut i: usize = 0;
        while i < len
            invariant
                i <= len,
                len == buf@.len(),
                slice_start + len <= size,
                size == buffer@.len(),
                slice_start == self.offset - start_block * 512,
                start_block * 512 <= self.offset,
                c == self.disk.contents(),
                rel == self.disk.reliable(),
                rel ==> size as int == (end_block - start_block) * 512,
                rel ==> start_block * 512 + size <= c.len(),
                rel ==> forall|k: int| 0 <= k < size ==> buffer@[k] == c[start_block * 512 + k],
                rel ==> forall|j: int| 0 <= j < i ==> buf@[j] == c[self.offset + j],
            decreases len - i,
        {
            buf.set(i, buffer[slice_start + i]);
            i += 1;
        }
        proof {
            if rel {
                assert(buf@ =~= c.subrange(self.offset as int, self.offset + len));
            }
        }
        self.offset = end;
        Ok(len)
    }

    /// Writes `buf` at the cursor and moves the cursor past it. The sectors
    /// that hold those bytes are read, patched and written back whole; as
    /// with `read`, the sector counts the device reports are not looked at.
    pub fn write(&mut self, buf: &[u8]) -> (r: Result<usize, IoError>)
        ensures
            final(self).contents().len() == old(self).contents().len(),
            final(self).reliable() == old(self).reliable(),
            old(self).reliable() && fits_one_transfer(
                old(self).position() as int,
                buf@.len() as int,
                old(self).contents().len() as int,
            ) ==> r is Ok,
            match r {
                Ok(n) => {
                    &&& n == buf@.len()
                    &&& final(self).position() == old(self).position() + n
                    &&& old(self).reliable() ==> {
                        &&& old(self).position() + n <= old(self).contents().len()
                        &&& final(self).contents() == update_bytes(
                            old(self).contents(),
                            old(self).position() as int,
                            buf@,
                        )
                    }
                },
                Err(_) => final(self).position() == old(self).position(),
            },
    {
        let len = buf.len();
        let end = match self.offset.checked_add(len) {
            None => return Err(IoError::Overflow),
            Some(e) => e,
        };
        let start_block = self.offset / 512;
        let end_block = if end % 512 == 0 {
            end / 512
        } else {
            end / 512 + 1
        };
        proof {
            lemma_sector_span(self.offset as int, len as int, start_block as int, end_block as int);
        }
        let count = end_block - start_block;
        if count > usize::MAX / 512 {
            return Err(IoError::Overflow);
        }
        let size = count * 512;
        let mut buffer: Vec<u8> = vec![0u8; size];
        let ghost rel = self.disk.reliable();
        match self.disk.read(start_block as u64, &mut buffer) {
            Err(e) => return Err(IoError::Disk(e)),
            Ok(_) => {},
        };
        let slice_start = self.offset - start_block * 512;
        let ghost c = self.disk.contents();
        let ghost base = start_block * 512;
        proof {
            if rel {
                assert(buffer@.subrange(0, size as int) =~= buffer@);
                assert forall|k: int| 0 <= k < size implies buffer@[k] == c[base + k] by {
                    assert(buffer@.subrange(0, size as int)[k] == c.subrange(base, base + size)[k]);
                }
            }
        }
        let mut i: usize = 0;
        while i < len
            invariant
                i <= len,
                len == buf@.len(),
                slice_start + len <= size,
                size == buffer@.len(),
                rel == self.disk.reliable(),
                rel ==> base + size <= c.len(),
                slice_start == self.offset - base,
                base <= self.offset,
                c == self.disk.contents(),
                rel ==> forall|k: int|
                    0 <= k < size ==> #[trigger] buffer@[k] == if slice_start <= k < slice_start
                        + i {
                        buf@[k - slice_start]
                    } else {
                        c[base + k]
                    },
            decreases len - i,
        {
            buffer.set(slice_start + i, buf[i]);
            i += 1;
        }
        match self.disk.write(start_block as u64, &buffer) {
            Err(e) => return Err(IoError::Disk(e)),
            Ok(_) => {},
        };
        proof {
            if rel {
                assert(buffer@.subrange(0, size as int) =~= buffer@);
                assert(self.disk.contents() =~= update_bytes(c, self.offset as int, buf@));
            }
        }
        self.offset = end;
        Ok(len)
    }

    /// Nothing is buffered, so there is nothing to flush.
    pub fn flush(&mut self) -> (r: Result<(), IoError>)
        ensures
            r == Ok::<(), IoError>(()),
            *final(self) == *old(self),
    {
        Ok(())
    }

    /// Moves the cursor, counting from the start, from the cursor or from
    /// the end of the device, and gives the new offset.
    pub fn seek(&mut self, position: SeekFrom) -> (r: Result<usize, IoError>)
        requires
            seek_target(old(self).position() as int, old(self).contents().len() as int, position)
                <= usize::MAX,
        ensures
            final(self).contents() == old(self).contents(),
            final(self).reliable() == old(self).reliable(),
            final(self).position() == seek_target(
                old(self).position() as int,
                old(self).contents().len() as int,
                position,
            ),
            r == Ok::<usize, IoError>(final(self).position()),
    {
        match position {
            SeekFrom::Start(n) => {
                self.offset = n;
                Ok(n)
            },
            SeekFrom::Current(n) => {
                self.offset = self.offset + n;
                Ok(self.offset)
            },
            SeekFrom::End(n) => {
                self.offset = self.disk.len() + n;
                Ok(self.offset)
            },
        }
    }
}

} // verus!
