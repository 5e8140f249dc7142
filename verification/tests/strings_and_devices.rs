use null_os::ata::{
    check_transfer, lba28_setup, load_word, ready_for_read, ready_for_write, sector_outcome, store_word, Ata,
    Disk, DiskError, Drive, PortRange, RegisterType, Transfer, TransferAction, READ_SECTORS, WRITE_SECTORS,
};
use null_os::fat_fs_adapter::FatFsAdapter;
use null_os::interrupts::{pit_divisor_bytes, sleep_done, InterruptIndex, TIMER_FREQUENCY};
use null_os::keyboard::LineEditor;
use null_os::mem_disk::MemDisk;
use null_os::reader_writer::{IoError, ReaderWriter, SeekFrom};
use null_os::strings::{strcmp, strlen};

fn buf(s: &str) -> [char; 80] {
    let mut b = ['\0'; 80];
    for (i, c) in s.chars().enumerate() {
        b[i] = c;
    }
    b
}

#[test]
fn strlen_counts_up_to_nul() {
    assert_eq!(strlen(&buf("")), 0);
    assert_eq!(strlen(&buf("hello")), 5);
    assert_eq!(strlen(&['x'; 80]), 80);
}

#[test]
fn strcmp_compares_common_length() {
    assert_eq!(strcmp(&buf("abc"), &buf("abc")), 0);
    assert_eq!(strcmp(&buf("abd"), &buf("abc")), 1);
    assert_eq!(strcmp(&buf("abc"), &buf("abd")), -1);
    // only the shorter string's length is compared
    assert_eq!(strcmp(&buf("ab"), &buf("abc")), 0);
    assert_eq!(strcmp(&buf(""), &buf("zzz")), 0);
}

#[test]
fn strcmp_is_antisymmetric_on_examples() {
    let words = ["", "a", "b", "ab", "ba", "hello", "help"];
    for x in words.iter() {
        for y in words.iter() {
            assert_eq!(strcmp(&buf(x), &buf(y)), -strcmp(&buf(y), &buf(x)));
        }
    }
}

#[test]
fn transfer_checks() {
    assert_eq!(check_transfer(0), Err(DiskError::EmptyBuffer));
    assert_eq!(check_transfer(100), Err(DiskError::NotSectorMultiple));
    assert_eq!(check_transfer(512 * 128), Err(DiskError::TooManySectors));
    assert_eq!(check_transfer(512), Ok(1));
    assert_eq!(check_transfer(512 * 127), Ok(127));
    assert_eq!(DiskError::NoSectorsTransferred.message(false), "No sectors read.");
    assert_eq!(DiskError::NoSectorsTransferred.message(true), "No sectors written.");
}

#[test]
fn mem_disk_reads_what_was_written() {
    let mut d = MemDisk::new(4096);
    assert_eq!(d.len(), 4096);
    let data: Vec<u8> = (0..1024).map(|i| (i % 251) as u8).collect();
    assert_eq!(d.write(2, &data), Ok(2));
    let mut back = vec![0u8; 1024];
    assert_eq!(d.read(2, &mut back), Ok(2));
    assert_eq!(back, data);
    let mut first = vec![9u8; 512];
    assert_eq!(d.read(0, &mut first), Ok(1));
    assert!(first.iter().all(|b| *b == 0));
    let mut past = vec![0u8; 512];
    assert_eq!(d.read(8, &mut past), Err(DiskError::OutOfRange));
    let mut odd = vec![0u8; 10];
    assert_eq!(d.read(0, &mut odd), Err(DiskError::NotSectorMultiple));
}

#[test]
fn stream_reads_back_unaligned_writes() {
    let mut rw = ReaderWriter::new(MemDisk::new(4096));
    assert_eq!(rw.seek(SeekFrom::Start(500)), Ok(500));
    let bytes: Vec<u8> = (1..=40u8).collect();
    assert_eq!(rw.write(&bytes), Ok(40));
    assert_eq!(rw.seek(SeekFrom::Current(0)), Ok(540));
    assert_eq!(rw.seek(SeekFrom::Start(500)), Ok(500));
    let mut back = vec![0u8; 40];
    assert_eq!(rw.read(&mut back), Ok(40));
    assert_eq!(back, bytes);
    // neighbours are untouched
    assert_eq!(rw.seek(SeekFrom::Start(499)), Ok(499));
    let mut one = vec![7u8; 1];
    assert_eq!(rw.read(&mut one), Ok(1));
    assert_eq!(one, vec![0u8]);
    assert_eq!(rw.seek(SeekFrom::End(0)), Ok(4096));
    assert_eq!(rw.seek(SeekFrom::Current(4)), Ok(4100));
    assert_eq!(rw.flush(), Ok(()));
}

#[test]
fn stream_reports_device_failures() {
    let mut rw = ReaderWriter::new(MemDisk::new(1024));
    assert_eq!(rw.seek(SeekFrom::Start(1020)), Ok(1020));
    let mut past = vec![0u8; 10];
    assert_eq!(rw.read(&mut past), Err(IoError::Disk(DiskError::OutOfRange)));
    // an empty read on a sector boundary asks the device for nothing
    assert_eq!(rw.seek(SeekFrom::Start(512)), Ok(512));
    let mut none: Vec<u8> = Vec::new();
    assert_eq!(rw.read(&mut none), Err(IoError::Disk(DiskError::EmptyBuffer)));
}

#[test]
fn ata_ports_and_commands() {
    let range = PortRange::new(0x1F0, 0x1F7);
    assert_eq!(range.get(0), 0x1F0);
    assert_eq!(range.get(7), 0x1F7);
    let ata = Ata::primary();
    assert_eq!(ata.get_port(RegisterType::Status), 0x3F6);
    assert_eq!(ata.get_port(RegisterType::Command), 0x1F7);
    assert_eq!(ata.get_port(RegisterType::SectorCount), 0x1F2);
    assert_eq!(ata.data_port(), 0x1F0);
    assert_eq!(Drive::Master.value(), 0xA0);
    assert_eq!(Drive::Slave.value(), 0xB0);
    let w = lba28_setup(0x0ABC_DEF1, 3, READ_SECTORS);
    assert_eq!(
        w,
        vec![
            (RegisterType::Drive, 0xEA),
            (RegisterType::SectorCount, 3),
            (RegisterType::LbaLow, 0xF1),
            (RegisterType::LbaMid, 0xDE),
            (RegisterType::LbaHigh, 0xBC),
            (RegisterType::Command, 0x20),
        ]
    );
    assert_eq!(lba28_setup(5, 1, WRITE_SECTORS)[5], (RegisterType::Command, 0x30));
}

#[test]
fn ata_status_decisions() {
    assert!(ready_for_read(0x08));
    assert!(!ready_for_read(0x88));
    assert!(!ready_for_read(0x00));
    assert!(ready_for_read(0x01));
    assert!(ready_for_read(0x20));
    assert!(ready_for_write(0x00));
    assert!(!ready_for_write(0x08));
    assert_eq!(sector_outcome(0x01, 0), Some(Err(DiskError::NoSectorsTransferred)));
    assert_eq!(sector_outcome(0x01, 2), Some(Ok(2)));
    assert_eq!(sector_outcome(0x20, 2), Some(Err(DiskError::DriveFault)));
    assert_eq!(sector_outcome(0x08, 2), None);
    let mut b = vec![0u8; 4];
    store_word(&mut b, 1, 0xBEEF);
    assert_eq!(b, vec![0, 0, 0xEF, 0xBE]);
    assert_eq!(load_word(&b, 1), 0xBEEF);
}

#[test]
fn transfer_steps() {
    assert_eq!(Transfer::start(100, false).err(), Some(DiskError::NotSectorMultiple));
    assert_eq!(Transfer::start(0, true).err(), Some(DiskError::EmptyBuffer));
    assert_eq!(Transfer::start(128 * 512, false).err(), Some(DiskError::TooManySectors));

    // A clean read of two sectors: busy, then ready for each sector in turn.
    let mut t = Transfer::start(1024, false).unwrap();
    assert_eq!(t.sector_count(), 2);
    assert_eq!(t.on_status(0x80), TransferAction::Poll);
    assert_eq!(t.on_status(0x00), TransferAction::Poll);
    assert_eq!(t.on_status(0x08), TransferAction::MoveSector(0));
    assert_eq!(t.sector_moved(), TransferAction::Poll);
    assert_eq!(t.on_status(0x08), TransferAction::MoveSector(1));
    assert_eq!(t.sector_moved(), TransferAction::Done(2));
    assert_eq!(t.on_status(0x08), TransferAction::Done(2));

    // A write waits for the data request to clear; an error after the first
    // sector reports the one sector moved.
    let mut w = Transfer::start(1024, true).unwrap();
    assert_eq!(w.on_status(0x08), TransferAction::Poll);
    assert_eq!(w.on_status(0x00), TransferAction::MoveSector(0));
    assert_eq!(w.sector_moved(), TransferAction::Poll);
    assert_eq!(w.on_status(0x01), TransferAction::Done(1));

    let f = Transfer::start(512, false).unwrap();
    assert_eq!(f.on_status(0x01), TransferAction::Failed(DiskError::NoSectorsTransferred));
    assert_eq!(f.on_status(0x20), TransferAction::Failed(DiskError::DriveFault));
}

#[test]
fn interrupt_vectors_and_timer() {
    assert_eq!(InterruptIndex::Timer.as_u8(), 32);
    assert_eq!(InterruptIndex::Keyboard.as_u8(), 33);
    assert_eq!(InterruptIndex::AtaPrimary.as_u8(), 46);
    assert_eq!(InterruptIndex::AtaSecondary.as_usize(), 47);
    // 1193180 / 1000 = 1193 = 0x04A9
    assert_eq!(pit_divisor_bytes(TIMER_FREQUENCY), (0xA9, 0x04));
    assert!(!sleep_done(10, 5, 15));
    assert!(sleep_done(10, 5, 16));
}

#[test]
fn line_editor_types_and_deletes() {
    let mut e = LineEditor::new();
    for c in "helo".chars() {
        assert!(!e.on_key(c));
    }
    assert!(!e.on_key('\x08'));
    assert_eq!(e.len(), 3);
    assert!(!e.on_key('p'));
    assert!(e.on_key('\n'));
    let b = e.buffer();
    assert_eq!(strlen(&b), 4);
    assert_eq!(&b[..4], &['h', 'e', 'l', 'p']);
    let mut empty = LineEditor::new();
    assert!(!empty.on_key('\x08'));
    assert_eq!(empty.len(), 0);
}

#[test]
fn fat_adapter_holds_the_device() {
    let a = FatFsAdapter::new(MemDisk::new(512));
    assert_eq!(a.into_inner().len(), 512);
}
