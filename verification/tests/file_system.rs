use null_os::dir_entries::{decode_dir_entries, encode_dir_entries, DirEntries};
use null_os::file_system::{BlockState, CreateOutcome, FileSystem, FsError, DISK_SIZE};
use null_os::inode::{Inode, InodeType};
use null_os::mem_disk::MemDisk;
use null_os::reader_writer::ReaderWriter;

fn fresh() -> FileSystem<MemDisk> {
    FileSystem::new(ReaderWriter::new(MemDisk::new(DISK_SIZE)), |_| {}).unwrap()
}

#[test]
fn inode_bytes_round_trip() {
    let mut inode = Inode::empty(InodeType::File);
    inode.content_length = 1234;
    inode.blocks_indexes = [9, 8, 7, 6, 5, 4, 3, 2, 1, 0];
    let bytes = inode.to_bytes();
    assert_eq!(bytes.len(), 96);
    assert_eq!(&bytes[0..8], &[1, 0, 0, 0, 0, 0, 0, 0]);
    assert_eq!(&bytes[8..16], &1234u64.to_le_bytes());
    let back = Inode::from_bytes(&bytes).unwrap();
    assert!(back.inode_type == InodeType::File);
    assert_eq!(back.content_length, 1234);
    assert_eq!(back.blocks_indexes, inode.blocks_indexes);
    let mut bad = bytes.clone();
    bad[0] = 3;
    assert!(Inode::from_bytes(&bad).is_none());
}

#[test]
fn format_reports_its_progress() {
    let seen = std::cell::RefCell::new(Vec::new());
    let fs = FileSystem::new(ReaderWriter::new(MemDisk::new(DISK_SIZE)), |p| seen.borrow_mut().push(p));
    assert!(fs.is_ok());
    assert_eq!(seen.into_inner(), vec![0, 17, 34, 67, 100]);
}

#[test]
fn format_makes_an_empty_root() {
    let mut fs = fresh();
    let root = fs.get_inode(0).unwrap();
    assert!(root.inode_type == InodeType::Dir);
    assert_eq!(root.content_length, 0);
    for i in [1usize, 2, 255, 511].iter() {
        assert!(fs.get_inode(*i).unwrap().inode_type == InodeType::Free);
    }
    assert_eq!(fs.get_block_state(0), Ok(BlockState::Free));
    assert_eq!(fs.get_block_state(1023), Ok(BlockState::Free));
    assert_eq!(fs.get_first_free_block_index(), Ok(0));
    assert_eq!(fs.get_first_free_inode_index(), Ok(1));
    assert_eq!(fs.get_entries_from_dir(0).unwrap().entries().len(), 0);
}

#[test]
fn offsets_follow_the_layout() {
    let mut fs = fresh();
    assert_eq!(fs.get_inode_offset_by_index(3), 288);
    assert_eq!(fs.get_inode_index_by_offset(288), 3);
    assert_eq!(fs.get_block_offset_by_index(0), 50176);
    assert_eq!(fs.get_block_offset_by_index(2), 51200);
    assert_eq!(fs.get_block_index_by_offset(50176), 0);
    assert_eq!(fs.get_block_index_by_offset(49152), 2);
}

#[test]
fn block_state_and_block_round_trip() {
    let mut fs = fresh();
    assert_eq!(fs.set_block_state(BlockState::Taken, 0), Ok(()));
    assert_eq!(fs.get_block_state(0), Ok(BlockState::Taken));
    assert_eq!(fs.get_first_free_block_index(), Ok(1));
    let data: Vec<u8> = (0..512).map(|i| (i % 200) as u8).collect();
    assert_eq!(fs.set_block(5, data.clone()), Ok(()));
    assert_eq!(fs.get_block(5), Ok(data));
    assert_eq!(fs.get_block(6), Ok(vec![0u8; 512]));
}

#[test]
fn content_read_after_write() {
    let mut fs = fresh();
    let mut inode = Inode::empty(InodeType::File);
    inode.content_length = 0;
    fs.set_inode(inode, 7).unwrap();
    let content: Vec<u8> = (0..1300).map(|i| (i * 7 % 256) as u8).collect();
    assert_eq!(fs.set_content_by_inode_index(7, content.clone()), Ok(()));
    assert_eq!(fs.get_content_by_inode_index(7), Ok(content));
    let after = fs.get_inode(7).unwrap();
    assert_eq!(after.content_length, 1300);
    assert!(after.inode_type == InodeType::File);
    assert_eq!(&after.blocks_indexes[..3], &[0, 1, 2]);
    assert_eq!(fs.get_block_state(2), Ok(BlockState::Taken));
    assert_eq!(fs.get_first_free_block_index(), Ok(3));
}

#[test]
fn rewriting_content_reuses_blocks_and_spares_others() {
    let mut fs = fresh();
    fs.set_inode(Inode::empty(InodeType::File), 1).unwrap();
    fs.set_inode(Inode::empty(InodeType::File), 2).unwrap();
    let a = vec![1u8; 600];
    let b = vec![2u8; 100];
    fs.set_content_by_inode_index(1, a.clone()).unwrap();
    fs.set_content_by_inode_index(2, b.clone()).unwrap();
    let c = vec![3u8; 10];
    fs.set_content_by_inode_index(1, c.clone()).unwrap();
    assert_eq!(fs.get_content_by_inode_index(1), Ok(c));
    assert_eq!(fs.get_content_by_inode_index(2), Ok(b));
    // inode 1 freed blocks 0 and 1, then took block 0 again
    assert_eq!(fs.get_inode(1).unwrap().blocks_indexes[0], 0);
    assert_eq!(fs.get_block_state(1), Ok(BlockState::Free));
    assert_eq!(fs.get_content_by_inode_index(3), Ok(Vec::new()));
}

#[test]
fn empty_content() {
    let mut fs = fresh();
    fs.set_inode(Inode::empty(InodeType::File), 4).unwrap();
    fs.set_content_by_inode_index(4, vec![5u8; 700]).unwrap();
    fs.set_content_by_inode_index(4, Vec::new()).unwrap();
    assert_eq!(fs.get_content_by_inode_index(4), Ok(Vec::new()));
    assert_eq!(fs.get_first_free_block_index(), Ok(0));
}

#[test]
fn too_long_content_is_refused_on_read() {
    let mut fs = fresh();
    let mut inode = Inode::empty(InodeType::File);
    inode.content_length = 5121;
    fs.set_inode(inode, 9).unwrap();
    assert_eq!(fs.get_content_by_inode_index(9), Err(FsError::TooManyBlocks));
}

#[test]
fn directory_entries_round_trip() {
    let mut entries = DirEntries::new();
    entries.insert(String::from("a"), 1);
    entries.insert(String::from("bin"), 2);
    entries.insert(String::from("c.txt"), 300);
    let bytes = encode_dir_entries(&entries);
    assert_eq!(bytes.len(), 1 + 3 + 5 + 3 * 9);
    let back = decode_dir_entries(&bytes).unwrap();
    assert_eq!(back.get("a"), Some(1));
    assert_eq!(back.get("bin"), Some(2));
    assert_eq!(back.get("c.txt"), Some(300));
    assert_eq!(back.entries().len(), 3);
}

#[test]
fn directory_bytes_decode() {
    let mut bytes: Vec<u8> = b"x".to_vec();
    bytes.push(0);
    bytes.extend_from_slice(&5u64.to_le_bytes());
    bytes.extend_from_slice(b"x");
    bytes.push(0);
    bytes.extend_from_slice(&6u64.to_le_bytes());
    bytes.extend_from_slice(b"tail");
    let d = decode_dir_entries(&bytes).unwrap();
    // a later entry of the same name wins; a name without its NUL is dropped
    assert_eq!(d.get("x"), Some(6));
    assert_eq!(d.entries().len(), 1);
    let cut = vec![b'y', 0, 1, 2];
    assert!(decode_dir_entries(&cut).is_none());
}

#[test]
fn create_then_resolve() {
    let mut fs = fresh();
    assert_eq!(fs.create_dir_entry("docs", true, 0), Ok(CreateOutcome::Created(1)));
    assert_eq!(fs.create_dir_entry("docs", false, 0), Ok(CreateOutcome::AlreadyExists));
    assert_eq!(fs.create_dir_entry("notes", false, 1), Ok(CreateOutcome::Created(2)));
    assert_eq!(fs.get_inode_index_from_path("/", 0), Ok(0));
    assert_eq!(fs.get_inode_index_from_path("docs", 0), Ok(1));
    assert_eq!(fs.get_inode_index_from_path("docs/", 0), Ok(1));
    assert_eq!(fs.get_inode_index_from_path("docs/notes", 0), Ok(2));
    assert_eq!(fs.get_inode_index_from_path("docs//", 0), Ok(0));
    assert_eq!(fs.get_inode_index_from_path("", 0), Err(FsError::EmptyPath));
    assert_eq!(fs.get_inode_index_from_path("nope", 0), Err(FsError::UnknownEntry));
    assert_eq!(fs.get_inode_index_from_path("/docs", 0), Err(FsError::EndlessPath));
    assert_eq!(fs.get_inode_index_from_path("docs/notes/x", 0), Err(FsError::NotADirectory));
    assert_eq!(fs.get_type_by_path("docs"), Ok(InodeType::Dir));
    assert_eq!(fs.get_type_by_path("docs/notes"), Ok(InodeType::File));
    assert_eq!(fs.get_type_by_path("nope"), Ok(InodeType::Free));
    assert_eq!(fs.get_type_by_path("/"), Ok(InodeType::Dir));
    assert_eq!(fs.get_type_by_path(""), Ok(InodeType::Free));
    assert_eq!(fs.get_type_by_path("docs/notes/x"), Err(FsError::NotADirectory));
    assert_eq!(fs.get_type_by_path("/docs"), Err(FsError::EndlessPath));
    let root = fs.get_entries_from_dir(0).unwrap();
    assert_eq!(root.get("docs"), Some(1));
    assert_eq!(fs.get_entries_from_dir(2).err(), Some(FsError::NotADirectory));
}

#[test]
fn set_files_to_dir_requires_a_directory() {
    let mut fs = fresh();
    fs.create_dir_entry("f", false, 0).unwrap();
    let entries = DirEntries::new();
    assert_eq!(fs.set_files_to_dir(&entries, 1), Err(FsError::NotADirectory));
    assert_eq!(fs.set_files_to_dir(&entries, 0), Ok(()));
    assert_eq!(fs.get_entries_from_dir(0).unwrap().entries().len(), 0);
}

#[test]
fn split_paths() {
    let fs = fresh();
    assert_eq!(fs.path_to_base_dir_and_entry("a"), ("/", "a"));
    assert_eq!(fs.path_to_base_dir_and_entry("a/b"), ("a", "b"));
    assert_eq!(fs.path_to_base_dir_and_entry("a/b/c"), ("a/b", "c"));
    assert_eq!(fs.path_to_base_dir_and_entry("/a"), ("", "a"));
    assert_eq!(fs.path_to_base_dir_and_entry("a/"), ("a", ""));
}

#[test]
fn error_messages() {
    assert_eq!(FsError::EmptyPath.message(), "Path can't be empty");
    assert_eq!(FsError::UnknownEntry.message(), "Unknown entry");
    assert_eq!(FsError::NoFreeBlock.message(), "There is no free block");
}

#[test]
fn removed_entry_is_not_found() {
    let mut fs = fresh();
    assert_eq!(fs.create_dir_entry("docs", true, 0), Ok(CreateOutcome::Created(1)));
    assert_eq!(fs.create_dir_entry("notes", false, 1), Ok(CreateOutcome::Created(2)));
    assert_eq!(fs.get_inode_index_from_path("notes", 1), Ok(2));
    let mut entries = fs.get_entries_from_dir(1).unwrap();
    entries.remove("notes");
    assert_eq!(fs.set_files_to_dir(&entries, 1), Ok(()));
    assert_eq!(fs.get_inode_index_from_path("notes", 1), Err(FsError::UnknownEntry));
    assert_eq!(fs.get_type_by_path("docs/notes"), Ok(InodeType::Free));
}

#[test]
fn paths_on_a_fresh_disk() {
    let mut fs = fresh();
    assert_eq!(fs.create_dir_entry("a", true, 0), Ok(CreateOutcome::Created(1)));
    assert_eq!(fs.create_dir_entry("b", false, 1), Ok(CreateOutcome::Created(2)));
    assert_eq!(fs.get_inode_index_from_path("a/b", 0), Ok(2));
    assert_eq!(fs.get_inode_index_from_path("a/", 0), Ok(1));
    assert_eq!(fs.get_inode_index_from_path("a/c", 0), Err(FsError::UnknownEntry));
    assert_eq!(fs.get_inode_index_from_path("b", 0), Err(FsError::UnknownEntry));
    assert_eq!(fs.get_inode_index_from_path("", 0), Err(FsError::EmptyPath));
    assert_eq!(fs.get_inode_index_from_path("/", 7), Ok(0));
}

#[test]
fn file_content_goes_to_the_first_free_block() {
    let mut fs = fresh();
    assert_eq!(fs.create_dir_entry("f", false, 0), Ok(CreateOutcome::Created(1)));
    assert_eq!(fs.get_inode(0).unwrap().blocks_indexes[0], 0);
    assert_eq!(fs.set_content_by_inode_index(1, b"hello".to_vec()), Ok(()));
    let inode = fs.get_inode(1).unwrap();
    assert_eq!(inode.content_length, 5);
    assert_eq!(inode.blocks_indexes[0], 1);
    assert_eq!(fs.get_block_state(1), Ok(BlockState::Taken));
    assert_eq!(fs.get_content_by_inode_index(1), Ok(b"hello".to_vec()));
    let root = fs.get_entries_from_dir(0).unwrap();
    assert_eq!(root.entries().len(), 1);
    assert_eq!(root.get("f"), Some(1));
}

#[test]
fn running_out_of_blocks() {
    let mut fs = fresh();
    let full = vec![9u8; 5120];
    for i in 1..=102usize {
        fs.set_inode(Inode::empty(InodeType::File), i).unwrap();
        assert_eq!(fs.set_content_by_inode_index(i, full.clone()), Ok(()));
    }
    fs.set_inode(Inode::empty(InodeType::File), 103).unwrap();
    assert_eq!(fs.set_content_by_inode_index(103, full.clone()), Err(FsError::NoFreeBlock));
    // the blocks taken before the shortage stay taken; the inode keeps its old content
    assert_eq!(fs.get_first_free_block_index(), Err(FsError::NoFreeBlock));
    assert_eq!(fs.get_block_state(1023), Ok(BlockState::Taken));
    assert_eq!(fs.get_content_by_inode_index(103), Ok(Vec::new()));
    assert_eq!(fs.get_content_by_inode_index(50), Ok(full));
}

#[test]
fn fresh_disk_first_free_items() {
    let mut fs = fresh();
    assert_eq!(fs.get_first_free_inode_index(), Ok(1));
    assert_eq!(fs.get_first_free_block_index(), Ok(0));
    assert_eq!(fs.get_block_state(0), Ok(BlockState::Free));
    assert_eq!(fs.get_entries_from_dir(0).unwrap().entries().len(), 0);
}

#[test]
fn listing_size_does_not_depend_on_insertion_order() {
    let names = ["zeta", "a", "mid", "bb", "q"];
    let mut forward = DirEntries::new();
    for (k, n) in names.iter().enumerate() {
        forward.insert(n.to_string(), k + 1);
    }
    let mut backward = DirEntries::new();
    for (k, n) in names.iter().enumerate().rev() {
        backward.insert(n.to_string(), k + 1);
    }
    let expected = 4 + 1 + 3 + 2 + 1 + 5 * 9;
    assert_eq!(encode_dir_entries(&forward).len(), expected);
    assert_eq!(encode_dir_entries(&backward).len(), expected);
}

#[test]
fn too_large_listing_is_refused() {
    let mut fs = fresh();
    let mut entries = DirEntries::new();
    // 100 names of 50 characters: 100 * 59 bytes, more than ten blocks hold
    for k in 0..100usize {
        entries.insert(format!("{:050}", k), 1);
    }
    assert_eq!(fs.set_files_to_dir(&entries, 0), Err(FsError::TooManyBlocks));
    assert_eq!(fs.get_entries_from_dir(0).unwrap().entries().len(), 0);
}
