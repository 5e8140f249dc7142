//! The ATA disk: the device trait the byte stream reads through, the
//! registers of the primary bus, and the decisions of an LBA28 transfer.
use vstd::prelude::*;

verus! {

/// Bytes in one sector.
pub const SECTOR_SIZE: usize = 512;

/// Most sectors one LBA28 command transfers.
pub const MAX_SECTORS_PER_TRANSFER: usize = 127;

/// Why a sector transfer failed.
#[derive(PartialEq, Eq, Structural, Clone, Copy, Debug)]
pub enum DiskError {
    /// The buffer's size is not a multiple of the sector size.
    NotSectorMultiple,
    /// The buffer spans more sectors than one command moves.
    TooManySectors,
    /// The buffer is empty.
    EmptyBuffer,
    /// The drive reported an error before the first sector.
    NoSectorsTransferred,
    /// The drive reported a fault.
    DriveFault,
    /// The sectors lie beyond the end of the device.
    OutOfRange,
}

/// `s` with the bytes at `addr..addr + bytes.len()` replaced by `bytes`.
pub open spec fn update_bytes(s: Seq<u8>, addr: int, bytes: Seq<u8>) -> Seq<u8> {
    Seq::new(
        s.len(),
        |i: int|
            if addr <= i < addr + bytes.len() {
                bytes[i - addr]
            } else {
                s[i]
            },
    )
}

/// Reading back bytes just written gives them, and the bytes around them
/// keep their values.
pub proof fn read_after_write(s: Seq<u8>, addr: int, bytes: Seq<u8>)
    requires
        0 <= addr,
        addr + bytes.len() <= s.len(),
    ensures
        update_bytes(s, addr, bytes).len() == s.len(),
        update_bytes(s, addr, bytes).subrange(addr, addr + bytes.len()) == bytes,
        forall|i: int|
            0 <= i < s.len() && !(addr <= i < addr + bytes.len()) ==> #[trigger] update_bytes(
                s,
                addr,
                bytes,
            )[i] == s[i],
{
    assert(update_bytes(s, addr, bytes).subrange(addr, addr + bytes.len()) =~= bytes);
}

/// A device addressed by 512-byte sectors.
///
/// `contents` is the whole device as a byte sequence. A transfer may move
/// fewer sectors than asked for; the count it returns says how many. A
/// `reliable` device moves every sector of each transfer that passes the
/// driver's checks and lies on it, and never reports fewer.
pub trait Disk {
    spec fn contents(&self) -> Seq<u8>;

    spec fn reliable(&self) -> bool;

    /// Size of the device in bytes.
    fn len(&self) -> (n: usize)
        ensures
            n == self.contents().len(),
    ;

    /// Reads the sectors from `block` on into `buffer`.
    fn read(&self, block: u64, buffer: &mut Vec<u8>) -> (r: Result<u8, DiskError>)
        ensures
            final(buffer)@.len() == old(buffer)@.len(),
            self.reliable() && spec_check_transfer(old(buffer)@.len() as int) is Ok && block * 512 + old(
                buffer,
            )@.len() <= self.contents().len() ==> r == spec_check_transfer(old(buffer)@.len() as int),
            self.reliable() && r is Ok ==> r == spec_check_transfer(old(buffer)@.len() as int),
            r matches Ok(n) ==> {
                &&& n * 512 <= old(buffer)@.len()
                &&& block * 512 + n * 512 <= self.contents().len()
                &&& final(buffer)@.subrange(0, n * 512) == self.contents().subrange(
                    block * 512,
                    block * 512 + n * 512,
                )
            },
    ;

    /// Writes `buffer` to the sectors from `block` on.
    fn write(&mut self, block: u64, buffer: &Vec<u8>) -> (r: Result<u8, DiskError>)
        ensures
            final(self).contents().len() == old(self).contents().len(),
            final(self).reliable() == old(self).reliable(),
            old(self).reliable() && spec_check_transfer(buffer@.len() as int) is Ok && block * 512 + buffer@.len()
                <= old(self).contents().len() ==> r == spec_check_transfer(buffer@.len() as int),
            old(self).reliable() && r is Ok ==> r == spec_check_transfer(buffer@.len() as int),
            r matches Ok(n) ==> {
                &&& n * 512 <= buffer@.len()
                &&& block * 512 + n * 512 <= old(self).contents().len()
                &&& final(self).contents() == update_bytes(
                    old(self).contents(),
                    block * 512,
                    buffer@.subrange(0, n * 512),
                )
            },
    ;
}

/// The checks an LBA28 transfer makes on its buffer before touching the
/// drive, and the sector count it then asks for.
pub open spec fn spec_check_transfer(len: int) -> Result<u8, DiskError> {
    if len % 512 != 0 {
        Err(DiskError::NotSectorMultiple)
    } else if len / 512 > 127 {
        Err(DiskError::TooManySectors)
    } else if len == 0 {
        Err(DiskError::EmptyBuffer)
    } else {
        Ok((len / 512) as u8)
    }
}

/// Checks a transfer buffer of `len` bytes and gives the number of sectors
/// it spans.
pub fn check_transfer(len: usize) -> (r: Result<u8, DiskError>)
    ensures
        r == spec_check_transfer(len as int),
{
    if len % 512 != 0 {
        Err(DiskError::NotSectorMultiple)
    } else if len / 512 > 127 {
        Err(DiskError::TooManySectors)
    } else if len == 0 {
        Err(DiskError::EmptyBuffer)
    } else {
        Ok((len / 512) as u8)
    }
}

/// A range of I/O ports, `start..=end`.
pub struct PortRange {
    start: u16,
    end: u16,
}

impl PortRange {
    /// The first port.
    pub closed spec fn first(&self) -> u16 {
        self.start
    }

    /// The last port.
    pub closed spec fn last(&self) -> u16 {
        self.end
    }

    pub fn new(start: u16, end: u16) -> (r: PortRange)
        ensures
            r.first() == start,
            r.last() == end,
    {
        PortRange { start: start, end: end }
    }

    /// The port `index` places after the first.
    pub fn get(&self, index: u16) -> (port: u16)
        requires
            self.first() <= self.last(),
            index <= self.last() - self.first(),
        ensures
            port == self.first() + index,
    {
        self.start + index
    }
}

/// The drive of a bus, as the drive register selects it.
#[derive(PartialEq, Eq, Structural, Clone, Copy, Debug)]
pub enum Drive {
    Master,
    Slave,
}

impl Drive {
    /// The value that selects this drive.
    pub fn value(&self) -> (v: u8)
        ensures
            v == (match *self {
                Drive::Master => 0xA0u8,
                Drive::Slave => 0xB0u8,
            }),
    {
        match self {
            Drive::Master => 0xA0,
            Drive::Slave => 0xB0,
        }
    }
}

#[derive(PartialEq, Eq, Structural, Clone, Copy, Debug)]
pub enum DeviceType {
    Ata,
    Atapi,
    Sata,
    Satapi,
}

/// What an IDENTIFY command found.
#[derive(PartialEq, Eq, Structural, Clone, Copy, Debug)]
pub enum AtaIdentifyResponse {
    ValidDevice,
    InvalidDevice(DeviceType),
    DoesntExist,
}

/// The registers of an ATA bus.
#[derive(PartialEq, Eq, Structural, Clone, Copy, Debug)]
pub enum RegisterType {
    ErrorInformation,
    SectorCount,
    LbaLow,
    LbaMid,
    LbaHigh,
    Drive,
    Command,
    Status,
}

/// The offset of a register from the first control port; the status
/// register has a port of its own.
pub open spec fn register_offset(r: RegisterType) -> u16 {
    match r {
        RegisterType::ErrorInformation => 1,
        RegisterType::SectorCount => 2,
        RegisterType::LbaLow => 3,
        RegisterType::LbaMid => 4,
        RegisterType::LbaHigh => 5,
        RegisterType::Drive => 6,
        RegisterType::Command => 7,
        RegisterType::Status => 8,
    }
}

impl RegisterType {
    pub fn offset(&self) -> (o: u16)
        ensures
            o == register_offset(*self),
    {
        match self {
            RegisterType::ErrorInformation => 1,
            RegisterType::SectorCount => 2,
            RegisterType::LbaLow => 3,
            RegisterType::LbaMid => 4,
            RegisterType::LbaHigh => 5,
            RegisterType::Drive => 6,
            RegisterType::Command => 7,
            RegisterType::Status => 8,
        }
    }
}

/// An ATA bus: its control ports and its status port.
pub struct Ata {
    control_ports: PortRange,
    status_port: u16,
}

/// The command that reads sectors.
pub const READ_SECTORS: u8 = 0x20;

/// The command that writes sectors.
pub const WRITE_SECTORS: u8 = 0x30;

impl Ata {
    /// The control ports.
    pub closed spec fn controls(&self) -> PortRange {
        self.control_ports
    }

    /// The status port.
    pub closed spec fn status(&self) -> u16 {
        self.status_port
    }

    pub fn new(control_ports: PortRange, status_port: u16) -> (a: Ata)
        ensures
            a.controls() == control_ports,
            a.status() == status_port,
    {
        Ata { control_ports: control_ports, status_port: status_port }
    }

    /// The primary bus: control ports 0x1F0 to 0x1F7, status port 0x3F6.
    pub fn primary() -> (a: Ata)
        ensures
            a.controls().first() == 0x1F0,
            a.controls().last() == 0x1F7,
            a.status() == 0x3F6,
    {
        Ata::new(PortRange::new(0x1F0, 0x1F7), 0x3F6)
    }

    /// The port of `register`.
    pub fn get_port(&self, register: RegisterType) -> (port: u16)
        requires
            register != RegisterType::Status ==> self.controls().first() <= self.controls().last()
                && register_offset(register) <= self.controls().last() - self.controls().first(),
        ensures
            port == if register == RegisterType::Status {
                self.status()
            } else {
                (self.controls().first() + register_offset(register)) as u16
            },
    {
        match register {
            RegisterType::Status => self.status_port,
            _ => self.control_ports.get(register.offset()),
        }
    }

    /// The data port, the first control port.
    pub fn data_port(&self) -> (port: u16)
        requires
            self.controls().first() <= self.controls().last(),
        ensures
            port == self.controls().first(),
    {
        self.control_ports.get(0)
    }
}

/// The register writes that set up an LBA28 transfer of `sector_count`
/// sectors from `block` on, in the order they are made: drive and the top
/// four address bits, sector count, the three low address bytes, command.
pub open spec fn lba28_setup_spec(block: u64, sector_count: u8, command: u8) -> Seq<(RegisterType, u8)> {
    seq![
        (RegisterType::Drive, 0xE0u8 | (((block >> 24u64) & 0x0F) as u8) | 0x40u8),
        (RegisterType::SectorCount, sector_count),
        (RegisterType::LbaLow, block as u8),
        (RegisterType::LbaMid, (block >> 8u64) as u8),
        (RegisterType::LbaHigh, (block >> 16u64) as u8),
        (RegisterType::Command, command),
    ]
}

/// The register writes of an LBA28 transfer.
pub fn lba28_setup(block: u64, sector_count: u8, command: u8) -> (writes: Vec<(RegisterType, u8)>)
    ensures
        writes@ == lba28_setup_spec(block, sector_count, command),
{
    let mut drive: u8 = 0xE0;
    drive = drive | ((block >> 24u64) & 0x0F) as u8;
    drive = drive | 0x40;
    let mut writes: Vec<(RegisterType, u8)> = Vec::new();
    writes.push((RegisterType::Drive, drive));
    writes.push((RegisterType::SectorCount, sector_count));
    writes.push((RegisterType::LbaLow, block as u8));
    writes.push((RegisterType::LbaMid, (block >> 8u64) as u8));
    writes.push((RegisterType::LbaHigh, (block >> 16u64) as u8));
    writes.push((RegisterType::Command, command));
    proof {
        assert(writes@ =~= lba28_setup_spec(block, sector_count, command));
    }
    writes
}

/// The address bytes an LBA28 setup sends hold the low 28 bits of the block.
pub proof fn lba28_address_round_trip(block: u64, sector_count: u8, command: u8)
    ensures
        ({
            let w = lba28_setup_spec(block, sector_count, command);
            (w[2].1 as u64) | ((w[3].1 as u64) << 8u64) | ((w[4].1 as u64) << 16u64) | (((w[0].1
                & 0x0F) as u64) << 24u64) == block & 0x0FFF_FFFF
        }),
{
    let w = lba28_setup_spec(block, sector_count, command);
    assert((block as u8 as u64) | (((block >> 8u64) as u8 as u64) << 8u64) | (((block >> 16u64) as u8 as u64)
        << 16u64) | (((((0xE0u8 | (((block >> 24u64) & 0x0F) as u8) | 0x40u8)) & 0x0F) as u64) << 24u64)
        == block & 0x0FFF_FFFF) by (bit_vector);
}

/// Whether a status byte ends the wait before a read: not busy and data
/// requested, or an error, or a drive fault.
pub open spec fn spec_ready_for_read(x: u8) -> bool {
    (x & 0x80 == 0 && x & 0x8 != 0) || x & 0x1 != 0 || x & 0x20 != 0
}

/// Whether a status byte ends the wait before a write: not busy and no data
/// requested, or an error, or a drive fault.
pub open spec fn spec_ready_for_write(x: u8) -> bool {
    (x & 0x80 == 0 && x & 0x8 == 0) || x & 0x1 != 0 || x & 0x20 != 0
}

pub fn ready_for_read(x: u8) -> (b: bool)
    ensures
        b == spec_ready_for_read(x),
{
    (x & 0x80 == 0 && x & 0x8 != 0) || x & 0x1 != 0 || x & 0x20 != 0
}

pub fn ready_for_write(x: u8) -> (b: bool)
    ensures
        b == spec_ready_for_write(x),
{
    (x & 0x80 == 0 && x & 0x8 == 0) || x & 0x1 != 0 || x & 0x20 != 0
}

/// What the status after the wait for sector `sector` decides: an error bit
/// ends the transfer with the sectors done so far (an error if none), a
/// drive fault ends it with an error, and otherwise the sector is moved.
pub open spec fn spec_sector_outcome(status: u8, sector: u8) -> Option<Result<u8, DiskError>> {
    if status & 1 != 0 {
        if sector == 0 {
            Some(Err(DiskError::NoSectorsTransferred))
        } else {
            Some(Ok(sector))
        }
    } else if status & 0x20 != 0 {
        Some(Err(DiskError::DriveFault))
    } else {
        None
    }
}

pub fn sector_outcome(status: u8, sector: u8) -> (r: Option<Result<u8, DiskError>>)
    ensures
        r == spec_sector_outcome(status, sector),
{
    if status & 1 != 0 {
        if sector == 0 {
            Some(Err(DiskError::NoSectorsTransferred))
        } else {
            Some(Ok(sector))
        }
    } else if status & 0x20 != 0 {
        Some(Err(DiskError::DriveFault))
    } else {
        None
    }
}

/// What the driver does next in a transfer.
#[derive(PartialEq, Eq, Structural, Clone, Copy, Debug)]
pub enum TransferAction {
    /// Read the status register again.
    Poll,
    /// Move the 256 words of this sector through the data port.
    MoveSector(u8),
    /// The transfer is over; this many sectors were moved.
    Done(u8),
    /// The transfer failed.
    Failed(DiskError),
}

/// An LBA28 transfer under way, as a value: whether it writes, how many
/// sectors it asked for, and the sector it is at.
pub struct TransferView {
    pub writing: bool,
    pub count: int,
    pub sector: int,
}

/// An LBA28 transfer under way.
pub struct Transfer {
    writing: bool,
    count: u8,
    sector: u8,
}

impl View for Transfer {
    type V = TransferView;

    closed spec fn view(&self) -> TransferView {
        TransferView { writing: self.writing, count: self.count as int, sector: self.sector as int }
    }
}

/// Whether a transfer is in order: between 1 and 127 sectors, and at most
/// all of them moved.
pub open spec fn transfer_wf(t: TransferView) -> bool {
    0 < t.count <= 127 && 0 <= t.sector <= t.count
}

/// Whether a status byte ends the wait of a transfer in direction `writing`.
pub open spec fn spec_ready(writing: bool, status: u8) -> bool {
    if writing {
        spec_ready_for_write(status)
    } else {
        spec_ready_for_read(status)
    }
}

/// What a status byte read while waiting decides: a transfer that moved
/// every sector is done; a status that does not end the wait means polling
/// again; otherwise the error and fault bits decide, and without them the
/// current sector is moved.
pub open spec fn spec_on_status(t: TransferView, status: u8) -> TransferAction {
    if t.sector >= t.count {
        TransferAction::Done(t.count as u8)
    } else if !spec_ready(t.writing, status) {
        TransferAction::Poll
    } else {
        match spec_sector_outcome(status, t.sector as u8) {
            Some(Ok(n)) => TransferAction::Done(n),
            Some(Err(e)) => TransferAction::Failed(e),
            None => TransferAction::MoveSector(t.sector as u8),
        }
    }
}

impl Transfer {
    /// Checks a buffer of `len` bytes and starts a transfer of its sectors
    /// at the first one.
    pub fn start(len: usize, writing: bool) -> (r: Result<Transfer, DiskError>)
        ensures
            match spec_check_transfer(len as int) {
                Ok(n) => r matches Ok(t) && t@ == (TransferView { writing, count: n as int, sector: 0 }),
                Err(e) => r == Err::<Transfer, DiskError>(e),
            },
            r matches Ok(t) ==> transfer_wf(t@),
    {
        let count = check_transfer(len)?;
        Ok(Transfer { writing, count, sector: 0 })
    }

    /// The number of sectors the transfer asked for.
    pub fn sector_count(&self) -> (n: u8)
        ensures
            n == self@.count,
    {
        self.count
    }

    /// Takes a status byte read while waiting for the current sector.
    pub fn on_status(&self, status: u8) -> (a: TransferAction)
        ensures
            a == spec_on_status(self@, status),
    {
        if self.sector >= self.count {
            return TransferAction::Done(self.count);
        }
        let ready = if self.writing {
            ready_for_write(status)
        } else {
            ready_for_read(status)
        };
        if !ready {
            return TransferAction::Poll;
        }
        match sector_outcome(status, self.sector) {
            Some(Ok(n)) => TransferAction::Done(n),
            Some(Err(e)) => TransferAction::Failed(e),
            None => TransferAction::MoveSector(self.sector),
        }
    }

    /// Records that the current sector was moved: the transfer is done
    /// after the last one, and waits for the next one otherwise.
    pub fn sector_moved(&mut self) -> (a: TransferAction)
        ensures
            final(self)@ == (TransferView {
                sector: if old(self)@.sector < old(self)@.count {
                    old(self)@.sector + 1
                } else {
                    old(self)@.sector
                },
                ..old(self)@
            }),
            a == if final(self)@.sector >= final(self)@.count {
                TransferAction::Done(old(self)@.count as u8)
            } else {
                TransferAction::Poll
            },
            transfer_wf(old(self)@) ==> transfer_wf(final(self)@),
    {
        if self.sector < self.count {
            self.sector = self.sector + 1;
        }
        if self.sector >= self.count {
            TransferAction::Done(self.count)
        } else {
            TransferAction::Poll
        }
    }
}

/// A transfer reports as moved exactly the sectors it moved: it finishes
/// with the count of sectors behind it, it fails for want of any sector
/// only before the first one, and it only ever moves the sector it is at.
pub proof fn transfer_reports_what_it_moved(t: TransferView, status: u8)
    requires
        transfer_wf(t),
    ensures
        spec_on_status(t, status) matches TransferAction::Done(n) ==> n == t.sector,
        spec_on_status(t, status) == TransferAction::Failed(DiskError::NoSectorsTransferred) ==> t.sector == 0,
        spec_on_status(t, status) matches TransferAction::MoveSector(s) ==> s == t.sector && t.sector < t.count,
{
}

/// The wait for a sector ends as the drive's status bits say: a status with
/// the error (0x01) or fault (0x20) bit ends it in either direction; without
/// them, a busy drive (0x80) is waited on, and a drive that is not busy ends
/// the wait of a read exactly when it requests data (0x08) and the wait of a
/// write exactly when it does not.
pub proof fn status_bits_decide_the_wait(x: u8)
    ensures
        x & 0x21 != 0 ==> spec_ready_for_read(x) && spec_ready_for_write(x),
        x & 0x21 == 0 && x & 0x80 != 0 ==> !spec_ready_for_read(x) && !spec_ready_for_write(x),
        x & 0xA1 == 0 && x & 0x08 != 0 ==> spec_ready_for_read(x) && !spec_ready_for_write(x),
        x & 0xA9 == 0 ==> !spec_ready_for_read(x) && spec_ready_for_write(x),
{
    assert(x & 0x21 != 0 ==> (x & 0x1 != 0 || x & 0x20 != 0)) by (bit_vector);
    assert(x & 0x21 == 0 ==> (x & 0x1 == 0 && x & 0x20 == 0)) by (bit_vector);
    assert(x & 0xA1 == 0 ==> (x & 0x1 == 0 && x & 0x20 == 0 && x & 0x80 == 0)) by (bit_vector);
    assert(x & 0xA9 == 0 ==> (x & 0x1 == 0 && x & 0x20 == 0 && x & 0x80 == 0 && x & 0x8 == 0)) by (bit_vector);
}

/// A transfer that still has sectors to move polls a busy drive again
/// unless the drive reports an error or a fault, never moves a sector when
/// it does, and moves the current sector once a drive that is neither busy
/// nor failing is ready in the transfer's direction (data requested for a
/// read, none for a write).
pub proof fn transfer_waits_for_the_drive(t: TransferView, status: u8)
    requires
        transfer_wf(t),
        t.sector < t.count,
    ensures
        status & 0x21 == 0 && status & 0x80 != 0 ==> spec_on_status(t, status) == TransferAction::Poll,
        status & 0x21 != 0 ==> !(spec_on_status(t, status) is MoveSector) && spec_on_status(t, status)
            != TransferAction::Poll,
        status & 0xA1 == 0 && (status & 0x08 != 0) != t.writing ==> spec_on_status(t, status)
            == TransferAction::MoveSector(t.sector as u8),
        status & 0xA1 == 0 && (status & 0x08 != 0) == t.writing ==> spec_on_status(t, status)
            == TransferAction::Poll,
{
    status_bits_decide_the_wait(status);
    assert(status & 0x21 == 0 ==> (status & 0x1 == 0 && status & 0x20 == 0)) by (bit_vector);
    assert(status & 0xA1 == 0 ==> (status & 0x1 == 0 && status & 0x20 == 0 && status & 0xA9 == status & 0x08))
        by (bit_vector);
    assert(status & 0x21 != 0 ==> (status & 0x1 != 0 || status & 0x20 != 0)) by (bit_vector);
}

/// The task-file registers sit on the control ports in their ATA order:
/// error at offset 1, sector count at 2, the low, middle and high address
/// bytes at 3, 4 and 5, drive select at 6 and command at 7; the status
/// register has a port of its own.
pub proof fn task_file_layout()
    ensures
        register_offset(RegisterType::ErrorInformation) == 1,
        register_offset(RegisterType::SectorCount) == 2,
        register_offset(RegisterType::LbaLow) == 3,
        register_offset(RegisterType::LbaMid) == 4,
        register_offset(RegisterType::LbaHigh) == 5,
        register_offset(RegisterType::Drive) == 6,
        register_offset(RegisterType::Command) == 7,
{
}

/// On any bus, an LBA28 setup sends byte `k` of the block (bits `8k` to
/// `8k + 7`, for `k` below 3) to the port `3 + k` places after the first
/// control port, so the address bytes land, low to high, on consecutive
/// ports.
pub proof fn address_bytes_land_in_order(a: Ata, block: u64, sector_count: u8, command: u8, k: int)
    requires
        0 <= k < 3,
        a.controls().first() + 7 <= a.controls().last(),
    ensures
        ({
            let w = lba28_setup_spec(block, sector_count, command);
            &&& w[2 + k].1 == (if k == 0 {
                block & 0xFF
            } else if k == 1 {
                (block >> 8u64) & 0xFF
            } else {
                (block >> 16u64) & 0xFF
            }) as u8
            &&& w[2 + k].0 != RegisterType::Status
            &&& a.controls().first() + register_offset(w[2 + k].0) == a.controls().first() + 3 + k
        }),
{
    assert((block as u8) == ((block & 0xFF) as u8)) by (bit_vector);
    assert(((block >> 8u64) as u8) == (((block >> 8u64) & 0xFF) as u8)) by (bit_vector);
    assert(((block >> 16u64) as u8) == (((block >> 16u64) & 0xFF) as u8)) by (bit_vector);
}

/// The 16-bit word at `word_index` of a transfer buffer, low byte first.
pub fn load_word(buffer: &Vec<u8>, word_index: usize) -> (w: u16)
    requires
        2 * word_index + 1 < buffer.len(),
    ensures
        w == buffer@[2 * word_index] as u16 + 256 * (buffer@[2 * word_index + 1] as u16),
{
    let lo = buffer[2 * word_index] as u16;
    let hi = buffer[2 * word_index + 1] as u16;
    lo + 256 * hi
}

/// Stores `word` at `word_index` of a transfer buffer, low byte first.
pub fn store_word(buffer: &mut Vec<u8>, word_index: usize, word: u16)
    requires
        2 * word_index + 1 < old(buffer).len(),
    ensures
        final(buffer)@ == old(buffer)@.update(2 * word_index, (word % 256) as u8).update(
            2 * word_index + 1,
            (word / 256) as u8,
        ),
{
    buffer.set(2 * word_index, (word % 256) as u8);
    buffer.set(2 * word_index + 1, (word / 256) as u8);
}

/// The text the driver reports for an error; `writing` tells a write from
/// a read.
pub open spec fn disk_error_text(e: DiskError, writing: bool) -> Seq<char> {
    match e {
        DiskError::NotSectorMultiple => "Size of buffer, isnt a multiplication of sector size."@,
        DiskError::TooManySectors => if writing {
            "Can only write 127 sectors at a time in LBA28 mode."@
        } else {
            "Can only read 127 sectors at a time in LBA28 mode."@
        },
        DiskError::EmptyBuffer => if writing {
            "Size of write buffer can't be 0."@
        } else {
            "Size of read buffer can't be 0."@
        },
        DiskError::NoSectorsTransferred => if writing {
            "No sectors written."@
        } else {
            "No sectors read."@
        },
        DiskError::DriveFault => "Drive Fault occured."@,
        DiskError::OutOfRange => "Sectors beyond the end of the disk."@,
    }
}

impl DiskError {
    /// The text the driver reports for the error; `writing` tells a write
    /// from a read.
    pub fn message(&self, writing: bool) -> (text: &'static str)
        ensures
            text@ == disk_error_text(*self, writing),
    {
        match self {
            DiskError::NotSectorMultiple => "Size of buffer, isnt a multiplication of sector size.",
            DiskError::TooManySectors => if writing {
                "Can only write 127 sectors at a time in LBA28 mode."
            } else {
                "Can only read 127 sectors at a time in LBA28 mode."
            },
            DiskError::EmptyBuffer => if writing {
                "Size of write buffer can't be 0."
            } else {
                "Size of read buffer can't be 0."
            },
            DiskError::NoSectorsTransferred => if writing {
                "No sectors written."
            } else {
                "No sectors read."
            },
            DiskError::DriveFault => "Drive Fault occured.",
            DiskError::OutOfRange => "Sectors beyond the end of the disk.",
        }
    }
}

} // verus!
