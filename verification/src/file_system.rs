//! The file system: a table of inodes, a byte map of block states and the
//! blocks themselves, laid out one after the other on a sector device.
//!
//! `| inode table | byte map of blocks | blocks |`
use vstd::prelude::*;
use crate::ata::{Disk, update_bytes};
use crate::reader_writer::{ReaderWriter, SeekFrom, IoError, fits_one_transfer, end_sector};
use vstd::slice::slice_subrange;
use crate::dir_entries::{DirEntries, decode_dir, decode_dir_entries, encode_dir_entries,
    encode_listing, is_listing, plain_name, dir_encoding_round_trip, lemma_listing_weight_encoded,
    lemma_parse_bounds_weight, parse_dir, listing_weight, listing_length_is_order_free};
use vstd::string::StrSliceExecFns;
use crate::inode::{Inode, InodeType, InodeView, INODE_SIZE, BLOCKS_IN_INODE, decode_inode,
    encode_inode, inode_encoding_round_trip};

verus! {

pub const BLOCK_SIZE: usize = 512;

pub const DISK_SIZE: usize = 1024 * 1024;

pub const INODE_TABLE_OFFSET: usize = 0;

pub const NUMBER_OF_INODES: usize = 512;

pub const NUMBER_OF_BLOCKS: usize = 512 * 2;

pub const BYTE_MAP_OFFSET: usize = NUMBER_OF_INODES * INODE_SIZE;

pub const BLOCKS_OFFSET: usize = BYTE_MAP_OFFSET + NUMBER_OF_BLOCKS;

/// The end of the last block.
pub const FS_SIZE: usize = BLOCKS_OFFSET + NUMBER_OF_BLOCKS * BLOCK_SIZE;

/// Whether a block holds data.
#[derive(PartialEq, Eq, Structural, Clone, Copy, Debug)]
pub enum BlockState {
    Free,
    Taken,
}

/// Why a file system operation failed.
#[derive(PartialEq, Eq, Structural, Clone, Copy, Debug)]
pub enum FsError {
    /// The stream over the device failed.
    Io(IoError),
    /// The bytes of an inode hold no inode.
    CorruptInode,
    /// An inode's content spans more blocks than it can point at.
    TooManyBlocks,
    /// A byte of the block map is neither free nor taken.
    InvalidBlockState,
    /// Every inode is in use.
    NoFreeInode,
    /// Every block is taken.
    NoFreeBlock,
    /// The inode is not a directory.
    NotADirectory,
    /// A directory's content ends inside an entry.
    CorruptDirectory,
    /// The path is empty.
    EmptyPath,
    /// A name on the path is not in its directory.
    UnknownEntry,
    /// The path leads back to itself without end.
    EndlessPath,
}

/// The text the kernel shows for an error.
pub open spec fn fs_error_text(e: FsError) -> Seq<char> {
    match e {
        FsError::Io(_) => "failed to access the disk"@,
        FsError::CorruptInode => "invalid inode"@,
        FsError::TooManyBlocks => "content spans too many blocks"@,
        FsError::InvalidBlockState => "Invalid block state!"@,
        FsError::NoFreeInode => "There is no free inode!"@,
        FsError::NoFreeBlock => "There is no free block"@,
        FsError::NotADirectory => "Index of the the inode isn't a directory inode."@,
        FsError::CorruptDirectory => "invalid directory entry"@,
        FsError::EmptyPath => "Path can't be empty"@,
        FsError::UnknownEntry => "Unknown entry"@,
        FsError::EndlessPath => "the path does not end"@,
    }
}

impl FsError {
    /// The text the kernel shows for the error.
    pub fn message(&self) -> (text: &'static str)
        ensures
            text@ == fs_error_text(*self),
    {
        match self {
            FsError::Io(_) => "failed to access the disk",
            FsError::CorruptInode => "invalid inode",
            FsError::TooManyBlocks => "content spans too many blocks",
            FsError::InvalidBlockState => "Invalid block state!",
            FsError::NoFreeInode => "There is no free inode!",
            FsError::NoFreeBlock => "There is no free block",
            FsError::NotADirectory => "Index of the the inode isn't a directory inode.",
            FsError::CorruptDirectory => "invalid directory entry",
            FsError::EmptyPath => "Path can't be empty",
            FsError::UnknownEntry => "Unknown entry",
            FsError::EndlessPath => "the path does not end",
        }
    }
}

// ----- the on-disk layout as mathematics -----

/// Where inode `i` is stored.
pub open spec fn inode_offset(i: int) -> int {
    i * 96
}

/// Where block `b` is stored.
pub open spec fn block_offset(b: int) -> int {
    50176 + b * 512
}

/// Where the state of block `b` is stored.
pub open spec fn state_offset(b: int) -> int {
    49152 + b
}

/// The inode stored at index `i` of the table on disk `d`, if its bytes are
/// on the disk and hold one.
pub open spec fn inode_at(d: Seq<u8>, i: int) -> Option<InodeView> {
    if 0 <= i && inode_offset(i) + 96 <= d.len() {
        decode_inode(d.subrange(inode_offset(i), inode_offset(i) + 96))
    } else {
        None
    }
}

/// Blocks that `len` bytes of content span.
pub open spec fn block_count(len: int) -> int {
    (len + 511) / 512
}

/// The content of inode `v` on disk `d`: byte `j` is byte `j % 512` of the
/// inode's block `j / 512`.
pub open spec fn content_of(d: Seq<u8>, v: InodeView) -> Seq<u8> {
    Seq::new(v.length as nat, |j: int| d[content_pos(v, j)])
}

/// Where byte `j` of the content of inode `v` is stored.
pub open spec fn content_pos(v: InodeView, j: int) -> int {
    block_offset(v.blocks[j / 512] as int) + j % 512
}

/// Whether inode `i` of disk `d` is stored whole and is not free.
pub open spec fn inode_in_use(d: Seq<u8>, i: int) -> bool {
    inode_at(d, i) matches Some(w) && w.kind != InodeType::Free
}

/// Whether inode `i` of disk `d` is stored whole and its length spans more
/// blocks than it can point at.
pub open spec fn spans_too_many_blocks(d: Seq<u8>, i: int) -> bool {
    inode_at(d, i) matches Some(w) && block_count(w.length as int) > 10
}

/// The byte a block state is stored as.
pub open spec fn state_byte(s: BlockState) -> u8 {
    match s {
        BlockState::Free => 0,
        BlockState::Taken => 1,
    }
}

/// Whether `r` failed on the device, whatever the device said.
pub open spec fn is_io_error<T>(r: Result<T, FsError>) -> bool {
    r matches Err(FsError::Io(_))
}

/// Whether byte `p` of `c` is stored where the content of an inode with
/// blocks `blocks` keeps it.
pub open spec fn stored_at(d: Seq<u8>, blocks: Seq<usize>, c: Seq<u8>, p: int) -> bool {
    block_offset(blocks[p / 512] as int) + p % 512 < d.len() && d[block_offset(
        blocks[p / 512] as int,
    ) + p % 512] == c[p]
}

/// Whether position `q` lies outside the state bytes and the block regions
/// of the first `i` blocks of `blocks`.
pub open spec fn untouched_by(blocks: Seq<usize>, i: int, q: int) -> bool {
    forall|k: int|
        0 <= k < i ==> q != state_offset(#[trigger] blocks[k] as int) && (q < block_offset(
            blocks[k] as int,
        ) || q >= block_offset(blocks[k] as int) + 512)
}

/// Whether position `q` is none of the state bytes of the first `i` blocks
/// of `blocks`.
pub open spec fn not_state_of(blocks: Seq<usize>, i: int, q: int) -> bool {
    forall|k: int| 0 <= k < i ==> q != state_offset(#[trigger] blocks[k] as int)
}

/// Whether inode `i` of disk `d` stores its `k`-th block.
pub open spec fn uses_block(d: Seq<u8>, i: int, k: int) -> bool {
    &&& 0 <= i < 512
    &&& inode_at(d, i) is Some
    &&& 0 <= k < block_count(inode_at(d, i)->0.length as int)
}

/// The `k`-th block of inode `i` of disk `d`.
pub open spec fn block_of(d: Seq<u8>, i: int, k: int) -> int {
    inode_at(d, i)->0.blocks[k] as int
}

/// Whether disk `d` holds a consistent file system: every inode of the
/// table is stored whole and spans at most ten blocks, every block an inode
/// stores is a block of the layout marked taken, no block is stored by two
/// inodes or twice by one, and every state byte is free or taken.
pub open spec fn fs_wf(d: Seq<u8>) -> bool {
    &&& d.len() >= FS_SIZE
    &&& forall|i: int|
        0 <= i < 512 ==> #[trigger] inode_at(d, i) is Some && block_count(
            inode_at(d, i)->0.length as int,
        ) <= 10
    &&& forall|i: int, k: int|
        #[trigger] uses_block(d, i, k) ==> block_of(d, i, k) < 1024 && d[state_offset(
            block_of(d, i, k),
        )] == 1
    &&& forall|i: int, k: int, j: int, l: int|
        #[trigger] uses_block(d, i, k) && #[trigger] uses_block(d, j, l) && (i != j || k != l)
            ==> block_of(d, i, k) != block_of(d, j, l)
    &&& forall|b: int| 0 <= b < 1024 ==> #[trigger] d[state_offset(b)] <= 1
}

proof fn lemma_inode_frame(d1: Seq<u8>, d2: Seq<u8>, j: int)
    requires
        d1.len() == d2.len(),
        forall|p: int| 0 <= p < d1.len() && j * 96 <= p < j * 96 + 96 ==> d1[p] == d2[p],
    ensures
        inode_at(d1, j) == inode_at(d2, j),
{
    if 0 <= j && inode_offset(j) + 96 <= d1.len() {
        assert(d1.subrange(j * 96, j * 96 + 96) =~= d2.subrange(j * 96, j * 96 + 96));
    }
}

proof fn lemma_content_frame(d1: Seq<u8>, d2: Seq<u8>, v: InodeView)
    requires
        forall|p: int|
            0 <= p < v.length ==> d1[#[trigger] content_pos(v, p)] == d2[content_pos(v, p)],
    ensures
        content_of(d1, v) == content_of(d2, v),
{
    assert(content_of(d1, v) =~= content_of(d2, v));
}

proof fn lemma_block_pos(p: int, len: int)
    requires
        0 <= p < len,
    ensures
        0 <= p / 512 < block_count(len),
        0 <= p % 512 < 512,
{
    assert(0 <= p / 512 < (len + 511) / 512) by (nonlinear_arith)
        requires 0 <= p < len;
}


/// A type's inode with no content and all block indexes 0.
pub open spec fn empty_inode(kind: InodeType) -> InodeView {
    InodeView { kind, length: 0, blocks: Seq::new(10, |k: int| 0usize) }
}

/// Whether disk `d` holds a freshly formatted file system: an empty root
/// directory, every other inode free and empty, every block free.
pub open spec fn formatted(d: Seq<u8>) -> bool {
    &&& FS_SIZE <= d.len() ==> fs_wf(d)
    &&& inode_at(d, 0) == Some(empty_inode(InodeType::Dir))
    &&& forall|i: int| 1 <= i < 512 ==> #[trigger] inode_at(d, i) == Some(empty_inode(InodeType::Free))
    &&& forall|b: int| 0 <= b < 1024 ==> #[trigger] d[state_offset(b)] == 0
}

/// Whether the entries read from a directory all have plain names; true of
/// a read that failed.
pub open spec fn plain_entries(r: Result<Map<Seq<char>, usize>, FsError>) -> bool {
    match r {
        Ok(m) => plain_keys(m),
        Err(_) => true,
    }
}

/// Whether every name of `m` is plain.
pub open spec fn plain_keys(m: Map<Seq<char>, usize>) -> bool {
    forall|k: Seq<char>| #[trigger] m.contains_key(k) ==> plain_name(k)
}

/// Whether every directory of the table holds only plain names.
pub open spec fn dir_names_plain(d: Seq<u8>) -> bool {
    forall|j: int| 0 <= j < 512 ==> plain_entries(#[trigger] dir_entries_at(d, j))
}

/// Whether every free inode of the table has no content.
pub open spec fn free_inodes_empty(d: Seq<u8>) -> bool {
    forall|j: int| 0 <= j < 512 ==> (#[trigger] inode_at(d, j) matches Some(v) ==> (v.kind == InodeType::Free
        ==> v.length == 0))
}

/// A freshly formatted disk's directories hold only plain names, and its
/// free inodes are empty.
pub proof fn formatted_is_tidy(d: Seq<u8>)
    requires
        formatted(d),
    ensures
        dir_names_plain(d),
        free_inodes_empty(d),
{
    assert forall|j: int| 0 <= j < 512 implies plain_entries(#[trigger] dir_entries_at(d, j)) by {
        if j == 0 {
            let v = empty_inode(InodeType::Dir);
            assert(content_of(d, v) =~= Seq::<u8>::empty());
            assert(decode_dir(Seq::<u8>::empty()) == Some(Map::<Seq<char>, usize>::empty()));
        }
    }
}

/// A freshly formatted disk's directories point only into the table: the
/// root is empty and every other inode is free.
pub proof fn formatted_entries_in_table(d: Seq<u8>)
    requires
        formatted(d),
    ensures
        entries_in_table(d),
{
    assert forall|j: int| 0 <= j < 512 implies points_into_table(#[trigger] dir_entries_at(d, j)) by {
        if j == 0 {
            let v = empty_inode(InodeType::Dir);
            assert(content_of(d, v) =~= Seq::<u8>::empty());
            assert(decode_dir(Seq::<u8>::empty()) == Some(Map::<Seq<char>, usize>::empty()));
        }
    }
}

/// Reading an inode back from where it was just stored gives it, and every
/// other inode of the table keeps its value.
pub proof fn inode_read_after_write(d: Seq<u8>, i: int, v: InodeView)
    requires
        0 <= i,
        i * 96 + 96 <= d.len(),
        v.blocks.len() == 10,
    ensures
        inode_at(update_bytes(d, inode_offset(i), encode_inode(v)), i) == Some(v),
        forall|j: int|
            0 <= j && j != i ==> #[trigger] inode_at(update_bytes(d, inode_offset(i), encode_inode(v)), j)
                == inode_at(d, j),
{
    let now = update_bytes(d, inode_offset(i), encode_inode(v));
    inode_encoding_round_trip(v);
    assert(now.subrange(i * 96, i * 96 + 96) =~= encode_inode(v));
    assert forall|j: int| 0 <= j && j != i implies #[trigger] inode_at(now, j) == inode_at(d, j) by {
        lemma_inode_frame(now, d, j);
    }
}

/// Reading a block's state back from where it was just recorded gives it.
pub proof fn block_state_read_after_write(d: Seq<u8>, b: int, s: BlockState)
    requires
        0 <= state_offset(b) < d.len(),
    ensures
        d.update(state_offset(b), state_byte(s))[state_offset(b)] == state_byte(s),
        forall|c: int| 0 <= state_offset(c) < d.len() && c != b ==> #[trigger] d.update(
            state_offset(b),
            state_byte(s),
        )[state_offset(c)] == d[state_offset(c)],
{
}

proof fn lemma_empty_inode_stored(before: Seq<u8>, now: Seq<u8>, i: int, kind: InodeType)
    requires
        0 <= i,
        i * 96 + 96 <= before.len(),
        now == update_bytes(before, inode_offset(i), encode_inode(empty_inode(kind))),
    ensures
        inode_at(now, i) == Some(empty_inode(kind)),
        now.len() == before.len(),
{
    inode_encoding_round_trip(empty_inode(kind));
    assert(now.subrange(i * 96, i * 96 + 96) =~= encode_inode(empty_inode(kind)));
}

/// Whether block `c` is free on disk `d` once the first `nb` blocks of
/// `blocks` are released: its state byte is 0, or it is one of them.
pub open spec fn free_once_released(d: Seq<u8>, blocks: Seq<usize>, nb: int, c: int) -> bool {
    d[state_offset(c)] == 0 || exists|k: int| 0 <= k < nb && blocks[k] as int == c
}

/// How many of the blocks below `n` are free on `d` once the first `nb`
/// blocks of `blocks` are released; with `nb` 0, the free blocks of `d`.
pub open spec fn count_free(d: Seq<u8>, blocks: Seq<usize>, nb: int, n: int) -> nat
    decreases n,
{
    if n <= 0 {
        0
    } else {
        count_free(d, blocks, nb, n - 1) + if free_once_released(d, blocks, nb, n - 1) {
            1nat
        } else {
            0nat
        }
    }
}

/// The blocks free on `d` once inode `i`'s own blocks are released.
pub open spec fn free_for_inode(d: Seq<u8>, i: int) -> nat {
    count_free(d, inode_at(d, i)->0.blocks, block_count(inode_at(d, i)->0.length as int), 1024)
}

/// Whether `m`, in any order, encodes to a directory content that fits in
/// the ten blocks of an inode and in the blocks free on `d` once inode
/// `i`'s own blocks are released.
pub open spec fn listing_fits(m: Map<Seq<char>, usize>, d: Seq<u8>, i: int) -> bool {
    forall|s: Seq<(Seq<char>, usize)>|
        #[trigger] is_listing(s, m) ==> encode_listing(s).len() <= 5120 && free_for_inode(d, i) >= block_count(
            encode_listing(s).len() as int,
        )
}

proof fn lemma_count_free_ext(
    d1: Seq<u8>,
    b1: Seq<usize>,
    nb1: int,
    d2: Seq<u8>,
    b2: Seq<usize>,
    nb2: int,
    n: int,
)
    requires
        forall|c: int| 0 <= c < n ==> free_once_released(d1, b1, nb1, c) == free_once_released(d2, b2, nb2, c),
    ensures
        count_free(d1, b1, nb1, n) == count_free(d2, b2, nb2, n),
    decreases n,
{
    if n > 0 {
        lemma_count_free_ext(d1, b1, nb1, d2, b2, nb2, n - 1);
    }
}

proof fn lemma_count_free_take(d1: Seq<u8>, d2: Seq<u8>, blocks: Seq<usize>, x: int, n: int)
    requires
        0 <= x,
        d1[state_offset(x)] == 0,
        d2[state_offset(x)] != 0,
        forall|c: int| 0 <= c < n && c != x ==> d2[#[trigger] state_offset(c)] == d1[state_offset(c)],
    ensures
        x < n ==> count_free(d2, blocks, 0, n) + 1 == count_free(d1, blocks, 0, n),
        x >= n ==> count_free(d2, blocks, 0, n) == count_free(d1, blocks, 0, n),
    decreases n,
{
    if n > 0 {
        lemma_count_free_take(d1, d2, blocks, x, n - 1);
        assert(d2[state_offset(n - 1)] == d1[state_offset(n - 1)] || n - 1 == x);
    }
}

proof fn lemma_count_free_none(d: Seq<u8>, blocks: Seq<usize>, n: int)
    requires
        forall|c: int| 0 <= c < n ==> d[#[trigger] state_offset(c)] != 0,
    ensures
        count_free(d, blocks, 0, n) == 0,
    decreases n,
{
    if n > 0 {
        lemma_count_free_none(d, blocks, n - 1);
    }
}

/// Whether the first `n` of `picks` are, in ascending order, the lowest
/// `n` blocks free on `d` once the first `nb` blocks of `blocks` are
/// released: each is such a block, and every such block below one of them
/// is an earlier one.
pub open spec fn first_fit(d: Seq<u8>, blocks: Seq<usize>, nb: int, picks: Seq<usize>, n: int) -> bool {
    &&& forall|k: int|
        0 <= k < n ==> (#[trigger] picks[k] as int) < 1024 && free_once_released(d, blocks, nb, picks[k] as int)
    &&& forall|k1: int, k2: int| 0 <= k1 < k2 < n ==> #[trigger] picks[k1] < #[trigger] picks[k2]
    &&& forall|k: int, c: int|
        0 <= k < n && 0 <= c < #[trigger] picks[k] && #[trigger] free_once_released(d, blocks, nb, c) ==> exists|
            l: int,
        | 0 <= l < k && #[trigger] picks[l] as int == c
}

/// Whether the state bytes of `after` are those of `before` with the first
/// `nb` blocks of `blocks` released and then the first `n` of `picks` taken.
pub open spec fn states_moved(
    before: Seq<u8>,
    blocks: Seq<usize>,
    nb: int,
    picks: Seq<usize>,
    n: int,
    after: Seq<u8>,
) -> bool {
    forall|c: int|
        0 <= c < 1024 ==> #[trigger] after[state_offset(c)] == if exists|k: int| 0 <= k < n && picks[k] as int == c {
            1u8
        } else if exists|k: int| 0 <= k < nb && blocks[k] as int == c {
            0u8
        } else {
            before[state_offset(c)]
        }
}

proof fn lemma_first_fit_step(
    d1: Seq<u8>,
    now: Seq<u8>,
    blocks: Seq<usize>,
    picks: Seq<usize>,
    i: int,
    bi: int,
)
    requires
        0 <= i < picks.len(),
        first_fit(d1, blocks, 0, picks, i),
        0 <= bi < 1024,
        d1[state_offset(bi)] == 0,
        forall|j: int| 0 <= j < bi ==> now[#[trigger] state_offset(j)] == 1,
        forall|k: int| 0 <= k < i ==> picks[k] as int != bi,
        forall|c: int|
            0 <= c < 1024 && now[#[trigger] state_offset(c)] != d1[state_offset(c)] ==> exists|k: int|
                0 <= k < i && picks[k] as int == c,
    ensures
        first_fit(d1, blocks, 0, picks.update(i, bi as usize), i + 1),
{
    let p2 = picks.update(i, bi as usize);
    assert(free_once_released(d1, blocks, 0, bi));
    assert forall|k: int| 0 <= k < i + 1 implies (#[trigger] p2[k] as int) < 1024 && free_once_released(
        d1,
        blocks,
        0,
        p2[k] as int,
    ) by {
        if k < i {
            assert(p2[k] == picks[k]);
        }
    }
    assert forall|k1: int, k2: int| 0 <= k1 < k2 < i + 1 implies #[trigger] p2[k1] < #[trigger] p2[k2] by {
        assert(p2[k1] == picks[k1]);
        if k2 < i {
            assert(p2[k2] == picks[k2]);
        } else if picks[k1] as int > bi {
            assert(free_once_released(d1, blocks, 0, bi));
            let l = choose|l: int| 0 <= l < k1 && #[trigger] picks[l] as int == bi;
        }
    }
    assert forall|k: int, c: int|
        0 <= k < i + 1 && 0 <= c < #[trigger] p2[k] && #[trigger] free_once_released(d1, blocks, 0, c) implies exists|
            l: int,
        | 0 <= l < k && #[trigger] p2[l] as int == c by {
        if k < i {
            assert(p2[k] == picks[k]);
            let l = choose|l: int| 0 <= l < k && #[trigger] picks[l] as int == c;
            assert(p2[l] == picks[l]);
        } else {
            assert(d1[state_offset(c)] == 0);
            assert(now[state_offset(c)] == 1);
            let l = choose|l: int| 0 <= l < i && picks[l] as int == c;
            assert(p2[l] == picks[l]);
        }
    }
}

proof fn lemma_first_fit_transfer(
    d1: Seq<u8>,
    b1: Seq<usize>,
    nb1: int,
    d0: Seq<u8>,
    b0: Seq<usize>,
    nb0: int,
    picks: Seq<usize>,
    n: int,
)
    requires
        first_fit(d1, b1, nb1, picks, n),
        forall|c: int|
            0 <= c < 1024 ==> #[trigger] free_once_released(d1, b1, nb1, c) == free_once_released(d0, b0, nb0, c),
    ensures
        first_fit(d0, b0, nb0, picks, n),
{
    assert forall|k: int, c: int|
        0 <= k < n && 0 <= c < #[trigger] picks[k] && #[trigger] free_once_released(d0, b0, nb0, c) implies exists|
            l: int,
        | 0 <= l < k && #[trigger] picks[l] as int == c by {
        assert(free_once_released(d1, b1, nb1, c));
    }
}

proof fn lemma_count_free_all(d: Seq<u8>, blocks: Seq<usize>, nb: int, n: int)
    requires
        0 <= n <= 1024,
        forall|c: int| 0 <= c < n ==> d[#[trigger] state_offset(c)] == 0,
    ensures
        count_free(d, blocks, nb, n) == n,
    decreases n,
{
    if n > 0 {
        lemma_count_free_all(d, blocks, nb, n - 1);
    }
}

/// The blocks free on `d`.
pub open spec fn free_blocks(d: Seq<u8>) -> nat {
    count_free(d, Seq::empty(), 0, 1024)
}

/// An inode with no content has every free block of the disk at its
/// disposal.
pub proof fn empty_inode_has_every_free_block(d: Seq<u8>, i: int)
    requires
        inode_at(d, i) matches Some(v) && v.length == 0,
    ensures
        free_for_inode(d, i) == free_blocks(d),
{
    let v = inode_at(d, i)->0;
    assert(block_count(v.length as int) == 0);
    lemma_count_free_ext(d, v.blocks, 0, d, Seq::empty(), 0, 1024);
}

/// A directory that is to hold a single entry with a plain name of at most
/// 5111 characters has room for it when as many blocks are free for it as
/// the entry takes.
pub proof fn single_entry_fits(d: Seq<u8>, i: int, name: Seq<char>, x: usize)
    requires
        plain_name(name),
        name.len() <= 5111,
        free_for_inode(d, i) >= block_count(name.len() as int + 9),
    ensures
        listing_fits(Map::<Seq<char>, usize>::empty().insert(name, x), d, i),
{
    let m = Map::<Seq<char>, usize>::empty().insert(name, x);
    assert forall|s: Seq<(Seq<char>, usize)>| #[trigger] is_listing(s, m) implies encode_listing(s).len() <= 5120
        && free_for_inode(d, i) >= block_count(encode_listing(s).len() as int) by {
        assert(m.contains_key(name));
        let j = choose|j: int| 0 <= j < s.len() && #[trigger] s[j].0 == name;
        if s.len() > 1 {
            assert(m.contains_key(s[0].0) && m.contains_key(s[1].0));
            assert(s[0].0 != s[1].0);
        }
        assert(s.len() == 1);
        assert(s[0].0 == name);
        assert forall|k: int| 0 <= k < s.len() implies plain_name(#[trigger] s[k].0) by {}
        lemma_listing_weight_encoded(s);
        assert(s.drop_last().len() == 0);
        assert(listing_weight(s.drop_last()) == 0);
        assert(s.last() == s[0]);
        assert(listing_weight(s) == name.len() + 9);
    }
}

/// On a freshly formatted disk, a first entry with a plain name of at most
/// 5111 characters fits in the root directory, whatever inode it names.
pub proof fn fresh_root_has_room(d: Seq<u8>, name: Seq<char>, x: usize)
    requires
        formatted(d),
        plain_name(name),
        name.len() <= 5111,
    ensures
        listing_fits(Map::<Seq<char>, usize>::empty().insert(name, x), d, 0),
{
    let v = inode_at(d, 0)->0;
    lemma_count_free_all(d, v.blocks, block_count(v.length as int), 1024);
    assert(block_count(name.len() as int + 9) <= 10);
    single_entry_fits(d, 0, name, x);
}

/// The percentages that formatting reports as it goes.
pub open spec fn progress_step(p: u32) -> bool {
    p == 0 || p == 17 || p == 34 || p == 67 || p == 100
}

/// How many of the first `nb` blocks of `blocks` are `c`.
spec fn hits(blocks: Seq<usize>, nb: int, c: int) -> nat
    decreases nb,
{
    if nb <= 0 {
        0
    } else {
        hits(blocks, nb - 1, c) + if blocks[nb - 1] as int == c {
            1nat
        } else {
            0nat
        }
    }
}

/// How many of the first `nb` blocks of `blocks` lie below `n`.
spec fn num_below(blocks: Seq<usize>, nb: int, n: int) -> nat
    decreases nb,
{
    if nb <= 0 {
        0
    } else {
        num_below(blocks, nb - 1, n) + if (blocks[nb - 1] as int) < n {
            1nat
        } else {
            0nat
        }
    }
}

proof fn lemma_num_below_step(blocks: Seq<usize>, nb: int, n: int)
    ensures
        num_below(blocks, nb, n + 1) == num_below(blocks, nb, n) + hits(blocks, nb, n),
    decreases nb,
{
    if nb > 0 {
        lemma_num_below_step(blocks, nb - 1, n);
    }
}

proof fn lemma_hits_distinct(blocks: Seq<usize>, nb: int, c: int)
    requires
        forall|k: int, l: int| 0 <= k < l < nb ==> blocks[k] != blocks[l],
    ensures
        hits(blocks, nb, c) <= 1,
        hits(blocks, nb, c) == 1 ==> exists|k: int| 0 <= k < nb && blocks[k] as int == c,
        hits(blocks, nb, c) == 0 ==> forall|k: int| 0 <= k < nb ==> blocks[k] as int != c,
    decreases nb,
{
    if nb > 0 {
        lemma_hits_distinct(blocks, nb - 1, c);
    }
}

proof fn lemma_count_free_at_least(d: Seq<u8>, blocks: Seq<usize>, nb: int, n: int)
    requires
        forall|k: int, l: int| 0 <= k < l < nb ==> blocks[k] != blocks[l],
    ensures
        count_free(d, blocks, nb, n) >= num_below(blocks, nb, n),
    decreases n,
{
    if n <= 0 {
        lemma_num_below_none(blocks, nb, n);
    } else {
        lemma_count_free_at_least(d, blocks, nb, n - 1);
        lemma_num_below_step(blocks, nb, n - 1);
        lemma_hits_distinct(blocks, nb, n - 1);
    }
}

proof fn lemma_num_below_none(blocks: Seq<usize>, nb: int, n: int)
    requires
        n <= 0,
    ensures
        num_below(blocks, nb, n) == 0,
    decreases nb,
{
    if nb > 0 {
        lemma_num_below_none(blocks, nb - 1, n);
    }
}

proof fn lemma_num_below_all(blocks: Seq<usize>, nb: int, n: int)
    requires
        0 <= nb,
        forall|k: int| 0 <= k < nb ==> (blocks[k] as int) < n,
    ensures
        num_below(blocks, nb, n) == nb,
    decreases nb,
{
    if nb > 0 {
        lemma_num_below_all(blocks, nb - 1, n);
    }
}

/// On a well-formed disk, releasing inode `i`'s own blocks frees at least
/// as many blocks as it holds.
proof fn lemma_own_blocks_free(d: Seq<u8>, i: int)
    requires
        fs_wf(d),
        0 <= i < 512,
    ensures
        free_for_inode(d, i) >= block_count(inode_at(d, i)->0.length as int),
{
    let v = inode_at(d, i)->0;
    let nb = block_count(v.length as int);
    assert(inode_at(d, i) is Some);
    assert forall|k: int, l: int| 0 <= k < l < nb implies v.blocks[k] != v.blocks[l] by {
        assert(uses_block(d, i, k) && uses_block(d, i, l));
    }
    assert forall|k: int| 0 <= k < nb implies (v.blocks[k] as int) < 1024 by {
        assert(uses_block(d, i, k));
    }
    lemma_count_free_at_least(d, v.blocks, nb, 1024);
    lemma_num_below_all(v.blocks, nb, 1024);
}

/// On a well-formed disk, a directory's entries, with any name left out,
/// fit again where the directory is stored: they take no more bytes than
/// the directory's content does.
pub(crate) proof fn lemma_removal_fits(d: Seq<u8>, b: int, m: Map<Seq<char>, usize>, e: Seq<char>)
    requires
        fs_wf(d),
        0 <= b < 512,
        dir_entries_at(d, b) == Ok::<Map<Seq<char>, usize>, FsError>(m),
        plain_keys(m),
    ensures
        listing_fits(m.remove(e), d, b),
{
    let v = inode_at(d, b)->0;
    let bytes = content_of(d, v);
    lemma_own_blocks_free(d, b);
    assert forall|s: Seq<(Seq<char>, usize)>| #[trigger] is_listing(s, m.remove(e)) implies encode_listing(s).len()
        <= 5120 && free_for_inode(d, b) >= block_count(encode_listing(s).len() as int) by {
        assert forall|k: int| 0 <= k < s.len() implies plain_name(#[trigger] s[k].0) by {
            assert(m.remove(e).contains_key(s[k].0));
            assert(m.contains_key(s[k].0));
        }
        lemma_listing_weight_encoded(s);
        assert forall|a: int|
            0 <= a < s.len() implies parse_dir(bytes, 0, Seq::empty(), Map::empty())->0.contains_key(
            #[trigger] s[a].0,
        ) && !Map::<Seq<char>, usize>::empty().contains_key(s[a].0) by {
            assert(m.remove(e).contains_key(s[a].0));
        }
        lemma_parse_bounds_weight(bytes, 0, Seq::empty(), Map::empty(), s);
        assert(bytes.len() == v.length);
        assert(block_count(v.length as int) <= 10);
    }
}

/// Whether the byte map of disk `d` agrees with its inode table: the table
/// lies on the disk with every inode stored whole, every block an inode
/// stores is a block of the layout marked taken, and no block is stored by
/// two inodes or twice by one.
pub open spec fn map_consistent(d: Seq<u8>) -> bool {
    &&& d.len() >= FS_SIZE
    &&& forall|i: int| 0 <= i < 512 ==> #[trigger] inode_at(d, i) is Some
    &&& forall|i: int, k: int|
        #[trigger] uses_block(d, i, k) ==> block_of(d, i, k) < 1024 && d[state_offset(
            block_of(d, i, k),
        )] == 1
    &&& forall|i: int, k: int, j: int, l: int|
        #[trigger] uses_block(d, i, k) && #[trigger] uses_block(d, j, l) && (i != j || k != l)
            ==> block_of(d, i, k) != block_of(d, j, l)
}

proof fn lemma_set_content_keeps_map(
    d0: Seq<u8>,
    d1: Seq<u8>,
    d2: Seq<u8>,
    d3: Seq<u8>,
    v: InodeView,
    w: InodeView,
    idx: int,
)
    requires
        map_consistent(d0),
        0 <= idx < 512,
        inode_at(d0, idx) == Some(v),
        v.blocks.len() == 10,
        d1.len() == d0.len(),
        forall|q: int|
            0 <= q < d0.len() && not_state_of(v.blocks, block_count(v.length as int), q)
                ==> #[trigger] d1[q] == d0[q],
        forall|q: int| 0 <= q < d0.len() ==> #[trigger] d1[q] == d0[q] || d1[q] == 0,
        w.length <= 5120,
        w.blocks.len() == 10,
        d2.len() == d0.len(),
        forall|k: int|
            0 <= k < block_count(w.length as int) ==> {
                &&& #[trigger] w.blocks[k] < 1024
                &&& d1[state_offset(w.blocks[k] as int)] == 0
                &&& d2[state_offset(w.blocks[k] as int)] == 1
            },
        forall|k1: int, k2: int|
            0 <= k1 < k2 < block_count(w.length as int) ==> #[trigger] w.blocks[k1]
                != #[trigger] w.blocks[k2],
        forall|q: int|
            0 <= q < d0.len() && untouched_by(w.blocks, block_count(w.length as int), q)
                ==> #[trigger] d2[q] == d1[q],
        d3 == update_bytes(d2, idx * 96, encode_inode(w)),
        encode_inode(w).len() == 96,
        inode_at(d3, idx) == Some(w),
    ensures
        map_consistent(d3),
        forall|j: int|
            0 <= j < 512 && j != idx ==> #[trigger] inode_at(d3, j) == inode_at(d0, j) && content_of(
                d3,
                inode_at(d0, j)->0,
            ) == content_of(d0, inode_at(d0, j)->0),
{
    let nb_old = block_count(v.length as int);
    let bn = block_count(w.length as int);
    assert(bn <= 10) by (nonlinear_arith)
        requires bn == (w.length + 511) / 512, w.length <= 5120;
    // Positions below the byte map keep their value up to the inode write.
    assert forall|q: int| 0 <= q < 49152 && q < d0.len() implies #[trigger] d2[q] == d0[q] by {
        assert(not_state_of(v.blocks, nb_old, q));
        assert forall|k: int| 0 <= k < bn implies q != state_offset(#[trigger] w.blocks[k] as int)
            && (q < block_offset(w.blocks[k] as int) || q >= block_offset(w.blocks[k] as int)
            + 512) by {
        }
        assert(untouched_by(w.blocks, bn, q));
    }
    // A block stored by another inode keeps its state and its bytes.
    assert forall|j: int, l: int| #[trigger] uses_block(d0, j, l) && j != idx implies {
        let u = block_of(d0, j, l);
        &&& d2[state_offset(u)] == 1
        &&& forall|k: int| 0 <= k < bn ==> #[trigger] w.blocks[k] != u
        &&& forall|o: int| 0 <= o < 512 ==> #[trigger] d2[block_offset(u) + o] == d0[block_offset(u) + o]
    } by {
        let u = block_of(d0, j, l);
        assert(u < 1024 && d0[state_offset(u)] == 1);
        assert forall|k: int| 0 <= k < nb_old implies state_offset(u) != state_offset(
            #[trigger] v.blocks[k] as int,
        ) by {
            assert(uses_block(d0, idx, k));
            assert(block_of(d0, idx, k) == v.blocks[k]);
        }
        assert(not_state_of(v.blocks, nb_old, state_offset(u)));
        assert(d1[state_offset(u)] == 1);
        assert forall|k: int| 0 <= k < bn implies #[trigger] w.blocks[k] != u by {
            assert(d1[state_offset(w.blocks[k] as int)] == 0);
        }
        assert(untouched_by(w.blocks, bn, state_offset(u))) by {
            assert forall|k: int| 0 <= k < bn implies state_offset(u) != state_offset(
                #[trigger] w.blocks[k] as int,
            ) && (state_offset(u) < block_offset(w.blocks[k] as int) || state_offset(u)
                >= block_offset(w.blocks[k] as int) + 512) by {
                assert(w.blocks[k] != u);
            }
        }
        assert forall|o: int| 0 <= o < 512 implies #[trigger] d2[block_offset(u) + o] == d0[block_offset(u)
            + o] by {
            let q = block_offset(u) + o;
            assert forall|k: int| 0 <= k < nb_old implies q != state_offset(
                #[trigger] v.blocks[k] as int,
            ) by {
                assert(uses_block(d0, idx, k));
                assert(block_of(d0, idx, k) == v.blocks[k]);
                assert(v.blocks[k] < 1024);
            }
            assert(not_state_of(v.blocks, nb_old, q));
            assert forall|k: int| 0 <= k < bn implies q != state_offset(#[trigger] w.blocks[k] as int)
                && (q < block_offset(w.blocks[k] as int) || q >= block_offset(w.blocks[k] as int)
                + 512) by {
                assert(w.blocks[k] != u);
                assert(q < block_offset(w.blocks[k] as int) || q >= block_offset(w.blocks[k] as int)
                    + 512) by (nonlinear_arith)
                    requires
                        q == 50176 + u * 512 + o,
                        0 <= o < 512,
                        w.blocks[k] != u,
                ;
            }
            assert(untouched_by(w.blocks, bn, q));
        }
    }
    // Other inodes keep their bytes, hence their value and their content.
    assert forall|j: int| 0 <= j < 512 && j != idx implies #[trigger] inode_at(d3, j) == inode_at(d0, j)
        && content_of(d3, inode_at(d0, j)->0) == content_of(d0, inode_at(d0, j)->0) by {
        assert forall|p: int| 0 <= p < d0.len() && j * 96 <= p < j * 96 + 96 implies d3[p] == d0[p] by {
            assert(d2[p] == d0[p]);
        }
        lemma_inode_frame(d3, d0, j);
        let vj = inode_at(d0, j)->0;
        assert forall|p: int| 0 <= p < vj.length implies d3[#[trigger] content_pos(vj, p)] == d0[content_pos(vj, p)] by {
            lemma_block_pos(p, vj.length as int);
            assert(uses_block(d0, j, p / 512));
            let u = block_of(d0, j, p / 512);
            assert(d2[block_offset(u) + p % 512] == d0[block_offset(u) + p % 512]);
        }
        lemma_content_frame(d3, d0, vj);
    }
    // The parts of consistency.
    assert forall|i: int| 0 <= i < 512 implies #[trigger] inode_at(d3, i) is Some by {
        if i != idx {
            assert(inode_at(d3, i) == inode_at(d0, i));
        }
    }
    assert forall|i: int, k: int| #[trigger] uses_block(d3, i, k) implies block_of(d3, i, k) < 1024
        && d3[state_offset(block_of(d3, i, k))] == 1 by {
        if i == idx {
            assert(w.blocks[k] < 1024);
        } else {
            assert(inode_at(d3, i) == inode_at(d0, i));
            assert(uses_block(d0, i, k));
        }
    }
    assert forall|i: int, k: int, j: int, l: int|
        #[trigger] uses_block(d3, i, k) && #[trigger] uses_block(d3, j, l) && (i != j || k != l)
            implies block_of(d3, i, k) != block_of(d3, j, l) by {
        if i == idx && j == idx {
            if k < l {
                assert(w.blocks[k] != w.blocks[l]);
            } else {
                assert(w.blocks[l] != w.blocks[k]);
            }
        } else if i == idx {
            assert(inode_at(d3, j) == inode_at(d0, j));
            assert(uses_block(d0, j, l));
            assert(w.blocks[k] != block_of(d0, j, l));
        } else if j == idx {
            assert(inode_at(d3, i) == inode_at(d0, i));
            assert(uses_block(d0, i, k));
            assert(w.blocks[l] != block_of(d0, i, k));
        } else {
            assert(inode_at(d3, i) == inode_at(d0, i));
            assert(inode_at(d3, j) == inode_at(d0, j));
            assert(uses_block(d0, i, k));
            assert(uses_block(d0, j, l));
        }
    }
}

proof fn lemma_set_content_keeps_wf(
    d0: Seq<u8>,
    d1: Seq<u8>,
    d2: Seq<u8>,
    d3: Seq<u8>,
    v: InodeView,
    w: InodeView,
    idx: int,
)
    requires
        fs_wf(d0),
        map_consistent(d3),
        0 <= idx < 512,
        inode_at(d0, idx) == Some(v),
        forall|j: int|
            0 <= j < 512 && j != idx ==> #[trigger] inode_at(d3, j) == inode_at(d0, j),
        d1.len() == d0.len(),
        forall|q: int| 0 <= q < d0.len() ==> #[trigger] d1[q] == d0[q] || d1[q] == 0,
        w.length <= 5120,
        w.blocks.len() == 10,
        d2.len() == d0.len(),
        forall|k: int|
            0 <= k < block_count(w.length as int) ==> #[trigger] w.blocks[k] < 1024 && d2[state_offset(
                w.blocks[k] as int,
            )] == 1,
        forall|q: int|
            0 <= q < d0.len() && untouched_by(w.blocks, block_count(w.length as int), q)
                ==> #[trigger] d2[q] == d1[q],
        d3 == update_bytes(d2, idx * 96, encode_inode(w)),
        encode_inode(w).len() == 96,
        inode_at(d3, idx) == Some(w),
    ensures
        fs_wf(d3),
{
    let bn = block_count(w.length as int);
    assert(bn <= 10) by (nonlinear_arith)
        requires bn == (w.length + 511) / 512, w.length <= 5120;
    assert forall|i: int| 0 <= i < 512 implies #[trigger] inode_at(d3, i) is Some && block_count(
        inode_at(d3, i)->0.length as int,
    ) <= 10 by {
        if i != idx {
            assert(inode_at(d3, i) == inode_at(d0, i));
        }
    }
    assert forall|b: int| 0 <= b < 1024 implies #[trigger] d3[state_offset(b)] <= 1 by {
        let q = state_offset(b);
        assert(d3[q] == d2[q]);
        if untouched_by(w.blocks, bn, q) {
            assert(d2[q] == d1[q]);
            assert(d0[q] <= 1);
        } else {
            let k = choose|k: int| 0 <= k < bn && !(q != state_offset(#[trigger] w.blocks[k] as int) && (
            q < block_offset(w.blocks[k] as int) || q >= block_offset(w.blocks[k] as int) + 512));
            assert(w.blocks[k] < 1024);
        }
    }
}

/// The entries of directory `idx` on disk `d`, as the file system reads
/// them, or the error reading them gives.
pub open spec fn dir_entries_at(d: Seq<u8>, idx: int) -> Result<Map<Seq<char>, usize>, FsError> {
    match inode_at(d, idx) {
        None => Err(FsError::CorruptInode),
        Some(v) => if v.kind != InodeType::Dir {
            Err(FsError::NotADirectory)
        } else if block_count(v.length as int) > 10 {
            Err(FsError::TooManyBlocks)
        } else {
            match decode_dir(content_of(d, v)) {
                None => Err(FsError::CorruptDirectory),
                Some(m) => Ok(m),
            }
        },
    }
}

/// The position of the first `/` of `p` from position `k` on.
pub open spec fn slash_from(p: Seq<char>, k: int) -> Option<int>
    decreases p.len() - k,
{
    if k < 0 || k >= p.len() {
        None
    } else if p[k] == '/' {
        Some(k)
    } else {
        slash_from(p, k + 1)
    }
}

/// The position of the last `/` of `p` before position `k`.
pub open spec fn slash_before(p: Seq<char>, k: int) -> Option<int>
    decreases k,
{
    if k <= 0 || k > p.len() {
        None
    } else if p[k - 1] == '/' {
        Some(k - 1)
    } else {
        slash_before(p, k - 1)
    }
}

/// The inode that `path` names, starting from directory `idx` of disk `d`:
/// `/` alone names inode 0; otherwise the name before the first `/` is
/// looked up in the directory and the rest of the path, if any is left,
/// from the inode found. A path whose remaining part starts with `/` (other
/// than `/` alone) leads back to itself without end.
pub open spec fn resolve(d: Seq<u8>, path: Seq<char>, idx: int) -> Result<usize, FsError>
    decreases path.len(),
{
    if path.len() == 0 {
        Err(FsError::EmptyPath)
    } else if path == seq!['/'] {
        Ok(0)
    } else if slash_from(path, 0) == Some(0int) {
        Err(FsError::EndlessPath)
    } else {
        let before = match slash_from(path, 0) {
            Some(k) => path.take(k),
            None => path,
        };
        let after = match slash_from(path, 0) {
            Some(k) => path.skip(k + 1),
            None => Seq::<char>::empty(),
        };
        match dir_entries_at(d, idx) {
            Err(e) => Err(e),
            Ok(m) => if !m.contains_key(before) {
                Err(FsError::UnknownEntry)
            } else if after.len() == 0 {
                Ok(m[before])
            } else {
                proof {
                    lemma_slash_from_range(path, 0);
                }
                resolve(d, after, m[before] as int)
            },
        }
    }
}

/// The first `/` from position `k` on is at or after `k`, and none comes
/// before it.
pub proof fn lemma_slash_from_range(p: Seq<char>, k: int)
    requires
        0 <= k,
    ensures
        slash_from(p, k) matches Some(j) ==> k <= j < p.len() && p[j] == '/' && forall|t: int| k <= t < j
            ==> p[t] != '/',
        slash_from(p, k) is None ==> forall|j: int| k <= j < p.len() ==> p[j] != '/',
    decreases p.len() - k,
{
    if k < p.len() && p[k] != '/' {
        lemma_slash_from_range(p, k + 1);
    }
}

/// A name without `/` that directory `b` holds is found there: looking it
/// up from `b` gives the inode its entry points at. So an entry just added
/// to a directory is found by its name.
pub proof fn entry_resolves_in_its_directory(d: Seq<u8>, b: int, m: Map<Seq<char>, usize>, name: Seq<char>)
    requires
        dir_entries_at(d, b) == Ok::<Map<Seq<char>, usize>, FsError>(m),
        m.contains_key(name),
        name.len() > 0,
        forall|t: int| 0 <= t < name.len() ==> name[t] != '/',
    ensures
        resolve(d, name, b) == Ok::<usize, FsError>(m[name]),
{
    lemma_slash_from_range(name, 0);
    assert(slash_from(name, 0) is None);
    assert(name != seq!['/']) by {
        if name == seq!['/'] {
            assert(name[0] == '/');
        }
    }
}

/// A name without `/` that directory `b` does not hold is not found there,
/// so an entry just removed from a directory is no longer found by its
/// name.
pub proof fn missing_entry_is_unknown(d: Seq<u8>, b: int, m: Map<Seq<char>, usize>, name: Seq<char>)
    requires
        dir_entries_at(d, b) == Ok::<Map<Seq<char>, usize>, FsError>(m),
        !m.contains_key(name),
        name.len() > 0,
        forall|t: int| 0 <= t < name.len() ==> name[t] != '/',
    ensures
        resolve(d, name, b) == Err::<usize, FsError>(FsError::UnknownEntry),
{
    lemma_slash_from_range(name, 0);
    assert(slash_from(name, 0) is None);
    assert(name != seq!['/']) by {
        if name == seq!['/'] {
            assert(name[0] == '/');
        }
    }
}

/// Whether the entries read from a directory all point at inodes of the
/// table; true of a read that failed.
pub open spec fn points_into_table(r: Result<Map<Seq<char>, usize>, FsError>) -> bool {
    match r {
        Ok(m) => forall|k: Seq<char>| #[trigger] m.contains_key(k) ==> m[k] < 512,
        Err(_) => true,
    }
}

/// Whether every directory of the table points only at inodes of the table.
pub open spec fn entries_in_table(d: Seq<u8>) -> bool {
    forall|j: int| 0 <= j < 512 ==> points_into_table(#[trigger] dir_entries_at(d, j))
}

/// Whether `p` is names joined by single `/`: it is not empty, does not
/// start or end with `/`, and has no two `/` in a row.
pub open spec fn simple_path(p: Seq<char>) -> bool {
    &&& p.len() > 0
    &&& p[0] != '/'
    &&& p[p.len() - 1] != '/'
    &&& forall|t: int| 0 <= t < p.len() - 1 && #[trigger] p[t] == '/' ==> p[t + 1] != '/'
}

proof fn lemma_slash_from_first(p: Seq<char>, k: int, j: int)
    requires
        0 <= k <= j < p.len(),
        p[j] == '/',
        forall|t: int| k <= t < j ==> p[t] != '/',
    ensures
        slash_from(p, k) == Some(j),
    decreases j - k,
{
    if k < j {
        lemma_slash_from_first(p, k + 1, j);
    }
}

pub(crate) proof fn lemma_slash_before_range(p: Seq<char>, k: int)
    requires
        0 <= k <= p.len(),
    ensures
        slash_before(p, k) matches Some(j) ==> 0 <= j < k && p[j] == '/' && forall|t: int| j < t < k ==> p[t] != '/',
        slash_before(p, k) is None ==> forall|j: int| 0 <= j < k ==> p[j] != '/',
    decreases k,
{
    if k > 0 && p[k - 1] != '/' {
        lemma_slash_before_range(p, k - 1);
    }
}

/// A path resolved from a directory of the table on a disk whose
/// directories point only into the table names an inode of the table.
pub(crate) proof fn lemma_resolve_in_table(d: Seq<u8>, path: Seq<char>, idx: int)
    requires
        0 <= idx < 512,
        entries_in_table(d),
    ensures
        resolve(d, path, idx) matches Ok(x) ==> x < 512,
    decreases path.len(),
{
    if path.len() > 0 && path != seq!['/'] && slash_from(path, 0) != Some(0int) {
        let before = match slash_from(path, 0) {
            Some(k) => path.take(k),
            None => path,
        };
        let after = match slash_from(path, 0) {
            Some(k) => path.skip(k + 1),
            None => Seq::<char>::empty(),
        };
        assert(points_into_table(dir_entries_at(d, idx)));
        if let Ok(m) = dir_entries_at(d, idx) {
            if m.contains_key(before) && after.len() > 0 {
                lemma_slash_from_range(path, 0);
                lemma_resolve_in_table(d, after, m[before] as int);
            }
        }
    }
}

/// Looking a path up never fails for want of space or on a block state.
pub(crate) proof fn lemma_resolve_errors(d: Seq<u8>, path: Seq<char>, idx: int)
    ensures
        resolve(d, path, idx) != Err::<usize, FsError>(FsError::InvalidBlockState),
        resolve(d, path, idx) != Err::<usize, FsError>(FsError::NoFreeBlock),
        resolve(d, path, idx) != Err::<usize, FsError>(FsError::NoFreeInode),
    decreases path.len(),
{
    if path.len() > 0 && path != seq!['/'] && slash_from(path, 0) != Some(0int) {
        let after = match slash_from(path, 0) {
            Some(k) => path.skip(k + 1),
            None => Seq::<char>::empty(),
        };
        if let Ok(m) = dir_entries_at(d, idx) {
            lemma_slash_from_range(path, 0);
            let before = match slash_from(path, 0) {
                Some(k) => path.take(k),
                None => path,
            };
            if m.contains_key(before) {
                lemma_resolve_errors(d, after, m[before] as int);
            }
        }
    }
}

/// On a well-formed disk whose directories point into the table, looking a
/// path up from the table never meets a directory too long for its inode.
pub(crate) proof fn lemma_resolve_fits(d: Seq<u8>, path: Seq<char>, idx: int)
    requires
        fs_wf(d),
        entries_in_table(d),
        0 <= idx < 512,
    ensures
        resolve(d, path, idx) != Err::<usize, FsError>(FsError::TooManyBlocks),
    decreases path.len(),
{
    if path.len() > 0 && path != seq!['/'] && slash_from(path, 0) != Some(0int) {
        let after = match slash_from(path, 0) {
            Some(k) => path.skip(k + 1),
            None => Seq::<char>::empty(),
        };
        assert(points_into_table(dir_entries_at(d, idx)));
        if let Ok(m) = dir_entries_at(d, idx) {
            lemma_slash_from_range(path, 0);
            let before = match slash_from(path, 0) {
                Some(k) => path.take(k),
                None => path,
            };
            if m.contains_key(before) {
                lemma_resolve_fits(d, after, m[before] as int);
            }
        }
    }
}

/// When no directory of the table changes, every path that resolved from
/// the table resolves to the same inode.
pub(crate) proof fn lemma_resolve_frame(d: Seq<u8>, d2: Seq<u8>, path: Seq<char>, idx: int)
    requires
        0 <= idx < 512,
        entries_in_table(d),
        forall|j: int|
            0 <= j < 512 && (#[trigger] dir_entries_at(d, j)) is Ok ==> dir_entries_at(d2, j) == dir_entries_at(
                d,
                j,
            ),
        resolve(d, path, idx) is Ok,
    ensures
        resolve(d2, path, idx) == resolve(d, path, idx),
    decreases path.len(),
{
    if path.len() > 0 && path != seq!['/'] && slash_from(path, 0) != Some(0int) {
        let before = match slash_from(path, 0) {
            Some(k) => path.take(k),
            None => path,
        };
        let after = match slash_from(path, 0) {
            Some(k) => path.skip(k + 1),
            None => Seq::<char>::empty(),
        };
        assert(points_into_table(dir_entries_at(d, idx)));
        let m0 = dir_entries_at(d, idx)->Ok_0;
        assert(dir_entries_at(d2, idx) == dir_entries_at(d, idx));
        if after.len() > 0 {
            lemma_slash_from_range(path, 0);
            lemma_resolve_frame(d, d2, after, m0[before] as int);
        }
    }
}

/// Adding an entry to directory `b`, when no other directory of the table
/// changes, leaves every path that resolved from the table resolving to the
/// same inode.
pub(crate) proof fn lemma_resolve_after_insert(
    d: Seq<u8>,
    d2: Seq<u8>,
    path: Seq<char>,
    idx: int,
    b: int,
    m: Map<Seq<char>, usize>,
    entry: Seq<char>,
    i: usize,
)
    requires
        0 <= idx < 512,
        entries_in_table(d),
        forall|j: int|
            0 <= j < 512 && j != b && (#[trigger] dir_entries_at(d, j)) is Ok ==> dir_entries_at(d2, j)
                == dir_entries_at(d, j),
        dir_entries_at(d, b) == Ok::<Map<Seq<char>, usize>, FsError>(m),
        dir_entries_at(d2, b) == Ok::<Map<Seq<char>, usize>, FsError>(m.insert(entry, i)),
        !m.contains_key(entry),
        resolve(d, path, idx) is Ok,
    ensures
        resolve(d2, path, idx) == resolve(d, path, idx),
    decreases path.len(),
{
    if path.len() > 0 && path != seq!['/'] && slash_from(path, 0) != Some(0int) {
        let before = match slash_from(path, 0) {
            Some(k) => path.take(k),
            None => path,
        };
        let after = match slash_from(path, 0) {
            Some(k) => path.skip(k + 1),
            None => Seq::<char>::empty(),
        };
        assert(points_into_table(dir_entries_at(d, idx)));
        let m0 = dir_entries_at(d, idx)->Ok_0;
        assert(m0.contains_key(before));
        if idx == b {
            assert(before != entry);
            assert(m.insert(entry, i).contains_key(before) && m.insert(entry, i)[before] == m[before]);
        } else {
            assert(dir_entries_at(d2, idx) == dir_entries_at(d, idx));
        }
        if after.len() > 0 {
            lemma_slash_from_range(path, 0);
            lemma_resolve_after_insert(d, d2, after, m0[before] as int, b, m, entry, i);
        }
    }
}

/// Removing from directory `b` an entry that names no directory, when no
/// other directory of the table changes, leaves every path that resolved
/// from the table to a directory resolving to it.
pub(crate) proof fn lemma_resolve_after_remove(
    d: Seq<u8>,
    d2: Seq<u8>,
    path: Seq<char>,
    idx: int,
    b: int,
    m: Map<Seq<char>, usize>,
    entry: Seq<char>,
    target: usize,
)
    requires
        0 <= idx < 512,
        entries_in_table(d),
        forall|j: int|
            0 <= j < 512 && j != b && (#[trigger] dir_entries_at(d, j)) is Ok ==> dir_entries_at(d2, j)
                == dir_entries_at(d, j),
        dir_entries_at(d, b) == Ok::<Map<Seq<char>, usize>, FsError>(m),
        dir_entries_at(d2, b) == Ok::<Map<Seq<char>, usize>, FsError>(m.remove(entry)),
        m.contains_key(entry) ==> dir_entries_at(d, m[entry] as int) is Err,
        simple_path(path),
        resolve(d, path, idx) == Ok::<usize, FsError>(target),
        dir_entries_at(d, target as int) is Ok,
    ensures
        resolve(d2, path, idx) == Ok::<usize, FsError>(target),
    decreases path.len(),
{
    assert(path != seq!['/']) by {
        if path == seq!['/'] {
            assert(path[0] == '/');
        }
    }
    if path.len() > 0 && path != seq!['/'] && slash_from(path, 0) != Some(0int) {
        let before = match slash_from(path, 0) {
            Some(k) => path.take(k),
            None => path,
        };
        let after = match slash_from(path, 0) {
            Some(k) => path.skip(k + 1),
            None => Seq::<char>::empty(),
        };
        assert(points_into_table(dir_entries_at(d, idx)));
        let m0 = dir_entries_at(d, idx)->Ok_0;
        assert(m0.contains_key(before));
        lemma_slash_from_range(path, 0);
        if let Some(k) = slash_from(path, 0) {
            assert(k < path.len() - 1);
            assert(path[k + 1] != '/');
            assert(simple_path(after)) by {
                assert(after[0] == path[k + 1]);
                assert(after[after.len() - 1] == path[path.len() - 1]);
                assert forall|t: int| 0 <= t < after.len() - 1 && #[trigger] after[t] == '/' implies after[t + 1]
                    != '/' by {
                    assert(after[t] == path[k + 1 + t]);
                    assert(after[t + 1] == path[k + 1 + t + 1]);
                }
            }
            assert(after != seq!['/']) by {
                if after == seq!['/'] {
                    assert(after[0] == '/');
                }
            }
            lemma_slash_from_range(after, 0);
        }
        if idx == b {
            if before == entry {
                if after.len() > 0 {
                    assert(resolve(d, after, m0[before] as int) is Err);
                }
                assert(false);
            }
            assert(m.remove(entry).contains_key(before) && m.remove(entry)[before] == m[before]);
        } else {
            assert(dir_entries_at(d2, idx) == dir_entries_at(d, idx));
        }
        if after.len() > 0 {
            lemma_resolve_after_remove(d, d2, after, m0[before] as int, b, m, entry, target);
        }
    }
}

/// Resolving a path with one more name at its end looks that name up in
/// the directory the path names.
pub(crate) proof fn lemma_resolve_join(d: Seq<u8>, base: Seq<char>, e: Seq<char>, idx: int)
    requires
        simple_path(base),
        e.len() > 0,
        forall|t: int| 0 <= t < e.len() ==> e[t] != '/',
        resolve(d, base, idx) is Ok,
    ensures
        resolve(d, base + seq!['/'] + e, idx) == resolve(d, e, resolve(d, base, idx)->Ok_0 as int),
    decreases base.len(),
{
    let p = base + seq!['/'] + e;
    assert(p[0] == base[0]);
    assert(p != seq!['/']) by {
        if p == seq!['/'] {
            assert(p.len() == 1);
        }
    }
    assert(base != seq!['/']) by {
        if base == seq!['/'] {
            assert(base[0] == '/');
        }
    }
    lemma_slash_from_range(base, 0);
    match slash_from(base, 0) {
        None => {
            assert forall|t: int| 0 <= t < base.len() implies p[t] != '/' by {
                assert(p[t] == base[t]);
            }
            lemma_slash_from_first(p, 0, base.len() as int);
            assert(p.take(base.len() as int) =~= base);
            assert(p.skip(base.len() as int + 1) =~= e);
        },
        Some(j) => {
            assert(j > 0);
            assert forall|t: int| 0 <= t < j implies p[t] != '/' by {
                assert(p[t] == base[t]);
            }
            assert(p[j] == base[j]);
            lemma_slash_from_first(p, 0, j);
            let rest = base.skip(j + 1);
            assert(j < base.len() - 1);
            assert(base[j + 1] != '/');
            assert(simple_path(rest)) by {
                assert(rest[0] == base[j + 1]);
                assert(rest[rest.len() - 1] == base[base.len() - 1]);
                assert forall|t: int| 0 <= t < rest.len() - 1 && #[trigger] rest[t] == '/' implies rest[t + 1]
                    != '/' by {
                    assert(rest[t] == base[j + 1 + t]);
                    assert(rest[t + 1] == base[j + 1 + t + 1]);
                }
            }
            assert(p.take(j) =~= base.take(j));
            assert(p.skip(j + 1) =~= rest + seq!['/'] + e);
            let m0 = dir_entries_at(d, idx)->Ok_0;
            lemma_resolve_join(d, rest, e, m0[base.take(j)] as int);
        },
    }
}

/// The type of the inode `path` names from the root: free when the path is
/// empty or one of its names is not in its directory.
pub open spec fn type_at_path(d: Seq<u8>, path: Seq<char>) -> Result<InodeType, FsError> {
    match resolve(d, path, 0) {
        Ok(i) => match inode_at(d, i as int) {
            Some(v) => Ok(v.kind),
            None => Err(FsError::CorruptInode),
        },
        Err(FsError::EmptyPath) => Ok(InodeType::Free),
        Err(FsError::UnknownEntry) => Ok(InodeType::Free),
        Err(e) => Err(e),
    }
}

/// Whether inode `i` of disk `d` is stored whole and is not a directory.
pub open spec fn not_a_dir(d: Seq<u8>, i: int) -> bool {
    inode_at(d, i) matches Some(v) && v.kind != InodeType::Dir
}

/// What creating an entry did.
#[derive(PartialEq, Eq, Structural, Clone, Copy, Debug)]
pub enum CreateOutcome {
    /// The directory already holds an entry of that name.
    AlreadyExists,
    /// The entry was added and points at this inode.
    Created(usize),
}

proof fn lemma_retype_keeps_wf(d: Seq<u8>, d2: Seq<u8>, i: int, v: InodeView, w: InodeView)
    requires
        fs_wf(d),
        0 <= i < 512,
        inode_at(d, i) == Some(v),
        w == (InodeView { kind: w.kind, ..v }),
        v.blocks.len() == 10,
        d2 == update_bytes(d, inode_offset(i), encode_inode(w)),
    ensures
        fs_wf(d2),
        inode_at(d2, i) == Some(w),
        forall|j: int|
            0 <= j < 512 && j != i ==> #[trigger] inode_at(d2, j) == inode_at(d, j) && content_of(
                d2,
                inode_at(d, j)->0,
            ) == content_of(d, inode_at(d, j)->0),
        forall|q: int| 49152 <= q < d.len() ==> #[trigger] d2[q] == d[q],
{
    inode_encoding_round_trip(w);
    assert(d2.subrange(i * 96, i * 96 + 96) =~= encode_inode(w));
    assert forall|j: int| 0 <= j < 512 && j != i implies #[trigger] inode_at(d2, j) == inode_at(d, j) && content_of(
        d2,
        inode_at(d, j)->0,
    ) == content_of(d, inode_at(d, j)->0) by {
        lemma_inode_frame(d2, d, j);
        let vj = inode_at(d, j)->0;
        assert forall|p: int| 0 <= p < vj.length implies d2[#[trigger] content_pos(vj, p)] == d[content_pos(vj, p)] by {
            lemma_block_pos(p, vj.length as int);
            assert(uses_block(d, j, p / 512));
        }
        lemma_content_frame(d2, d, vj);
    }
    assert forall|k: int| 0 <= k < 10 implies #[trigger] w.blocks[k] == v.blocks[k] by {}
    assert forall|a: int, k: int| #[trigger] uses_block(d2, a, k) <==> uses_block(d, a, k) by {
        if a != i && 0 <= a < 512 {
            assert(inode_at(d2, a) == inode_at(d, a));
        }
    }
    assert forall|a: int, k: int| #[trigger] uses_block(d2, a, k) implies block_of(d2, a, k) == block_of(d, a, k) by {
        if a != i {
            assert(inode_at(d2, a) == inode_at(d, a));
        }
    }
    assert forall|a: int| 0 <= a < 512 implies #[trigger] inode_at(d2, a) is Some && block_count(
        inode_at(d2, a)->0.length as int,
    ) <= 10 by {
        if a != i {
            assert(inode_at(d2, a) == inode_at(d, a));
        }
    }
    assert forall|a: int, k: int| #[trigger] uses_block(d2, a, k) implies block_of(d2, a, k) < 1024
        && d2[state_offset(block_of(d2, a, k))] == 1 by {
        assert(uses_block(d, a, k));
    }
    assert forall|a: int, k: int, b: int, l: int|
        #[trigger] uses_block(d2, a, k) && #[trigger] uses_block(d2, b, l) && (a != b || k != l)
            implies block_of(d2, a, k) != block_of(d2, b, l) by {
        assert(uses_block(d, a, k));
        assert(uses_block(d, b, l));
    }
    assert forall|b: int| 0 <= b < 1024 implies #[trigger] d2[state_offset(b)] <= 1 by {
        assert(d[state_offset(b)] <= 1);
    }
}

/// A transfer of at most a block's bytes inside the file system's layout
/// is one that a device holding the whole layout takes whole.
/// A transfer of at most a block's bytes inside the inode table and the
/// byte map is one that a device holding both takes whole.
proof fn lemma_fits_meta(pos: int, len: int, size: int)
    requires
        0 <= pos,
        0 < len <= 512,
        pos + len <= BLOCKS_OFFSET,
        BLOCKS_OFFSET <= size,
    ensures
        fits_one_transfer(pos, len, size),
{
    let e = end_sector(pos, len);
    assert(e * 512 <= 50176) by (nonlinear_arith)
        requires
            e == (if (pos + len) % 512 == 0 {
                (pos + len) / 512
            } else {
                (pos + len) / 512 + 1
            }),
            pos + len <= 50176,
            pos + len >= 0;
    assert(e - pos / 512 <= 2) by (nonlinear_arith)
        requires
            e == (if (pos + len) % 512 == 0 {
                (pos + len) / 512
            } else {
                (pos + len) / 512 + 1
            }),
            0 <= pos,
            0 < len <= 512;
}

proof fn lemma_fits_layout(pos: int, len: int, size: int)
    requires
        0 <= pos,
        0 < len <= 512,
        pos + len <= FS_SIZE,
        FS_SIZE <= size,
    ensures
        fits_one_transfer(pos, len, size),
{
    let e = end_sector(pos, len);
    assert(e * 512 <= 574464) by (nonlinear_arith)
        requires
            e == (if (pos + len) % 512 == 0 {
                (pos + len) / 512
            } else {
                (pos + len) / 512 + 1
            }),
            pos + len <= 574464,
            pos + len >= 0;
    assert(e - pos / 512 <= 2) by (nonlinear_arith)
        requires
            e == (if (pos + len) % 512 == 0 {
                (pos + len) / 512
            } else {
                (pos + len) / 512 + 1
            }),
            0 <= pos,
            0 < len <= 512;
}

/// The blocks of `len` bytes: `len / 512` rounded up.
pub fn ceil_blocks(len: usize) -> (n: usize)
    ensures
        n == block_count(len as int),
{
    if len % 512 == 0 {
        len / 512
    } else {
        len / 512 + 1
    }
}

/// A file system on the device behind `reader_writer`.
pub struct FileSystem<D: Disk> {
    reader_writer: ReaderWriter<D>,
}

impl<D: Disk> FileSystem<D> {
    /// The bytes of the device.
    pub closed spec fn disk(&self) -> Seq<u8> {
        self.reader_writer.contents()
    }

    /// Whether the device moves every sector asked for. The stream does not
    /// look at the sector counts a device reports, so on a device that may
    /// move fewer, what a read gives and what a write leaves on the disk are
    /// not stated.
    pub closed spec fn reliable(&self) -> bool {
        self.reader_writer.reliable()
    }

    /// Whether the device is reliable and holds the whole layout: then no
    /// access to the layout fails on the device.
    pub open spec fn sound(&self) -> bool {
        self.reliable() && FS_SIZE <= self.disk().len()
    }

    /// The device's bytes `offset..offset + len`.
    fn read_at(&mut self, offset: usize, len: usize) -> (r: Result<Vec<u8>, FsError>)
        ensures
            final(self).disk() == old(self).disk(),
            final(self).reliable() == old(self).reliable(),
            old(self).reliable() && fits_one_transfer(offset as int, len as int, old(self).disk().len() as int)
                ==> r is Ok,
            r is Ok || is_io_error(r),
            r matches Ok(v) ==> v@.len() == len,
            r matches Ok(v) ==> (old(self).reliable() ==> {
                &&& offset + len <= old(self).disk().len()
                &&& v@ == old(self).disk().subrange(offset as int, offset + len)
            }),
    {
        let _ = self.reader_writer.seek(SeekFrom::Start(offset));
        let mut buff: Vec<u8> = vec![0u8; len];
        match self.reader_writer.read(&mut buff) {
            Ok(_) => Ok(buff),
            Err(e) => Err(FsError::Io(e)),
        }
    }

    /// Writes `bytes` at `offset`.
    fn write_at(&mut self, offset: usize, bytes: &[u8]) -> (r: Result<(), FsError>)
        ensures
            final(self).disk().len() == old(self).disk().len(),
            final(self).reliable() == old(self).reliable(),
            old(self).reliable() && fits_one_transfer(
                offset as int,
                bytes@.len() as int,
                old(self).disk().len() as int,
            ) ==> r is Ok,
            r is Ok || is_io_error(r),
            r is Ok && old(self).reliable() ==> {
                &&& offset + bytes@.len() <= old(self).disk().len()
                &&& final(self).disk() == update_bytes(old(self).disk(), offset as int, bytes@)
            },
    {
        let _ = self.reader_writer.seek(SeekFrom::Start(offset));
        match self.reader_writer.write(bytes) {
            Ok(_) => Ok(()),
            Err(e) => Err(FsError::Io(e)),
        }
    }

    // ----- inodes -----

    /// Reads the inode at `inode_index` of the table.
    pub fn get_inode(&mut self, inode_index: usize) -> (r: Result<Inode, FsError>)
        requires
            inode_index * 96 + 96 <= usize::MAX,
        ensures
            final(self).disk() == old(self).disk(),
            final(self).reliable() == old(self).reliable(),
            old(self).reliable() && BLOCKS_OFFSET <= old(self).disk().len() && inode_index < 512 ==> !is_io_error(r),
            r is Ok || is_io_error(r) || r == Err::<Inode, FsError>(FsError::CorruptInode),
            r matches Ok(inode) ==> (old(self).reliable() ==> inode_at(old(self).disk(), inode_index as int) == Some(
                inode@,
            )),
            r == Err::<Inode, FsError>(FsError::CorruptInode) && old(self).reliable() ==> inode_at(
                old(self).disk(),
                inode_index as int,
            ) is None,
            inode_at(old(self).disk(), inode_index as int) is None && old(self).reliable() ==> r is Err,
    {
        let offset = self.get_inode_offset_by_index(inode_index);
        proof {
            if self.reliable() && BLOCKS_OFFSET <= self.disk().len() && inode_index < 512 {
                lemma_fits_meta(offset as int, 96, self.disk().len() as int);
            }
        }
        let buff = self.read_at(offset, INODE_SIZE)?;
        match Inode::from_bytes(&buff) {
            Some(inode) => Ok(inode),
            None => Err(FsError::CorruptInode),
        }
    }

    /// Stores `inode` at `inode_index` of the table.
    pub fn set_inode(&mut self, inode: Inode, inode_index: usize) -> (r: Result<(), FsError>)
        requires
            inode_index * 96 + 96 <= usize::MAX,
        ensures
            final(self).disk().len() == old(self).disk().len(),
            final(self).reliable() == old(self).reliable(),
            old(self).reliable() && BLOCKS_OFFSET <= old(self).disk().len() && inode_index < 512 ==> r is Ok,
            r is Ok || is_io_error(r),
            r is Ok && old(self).reliable() ==> {
                &&& inode_index * 96 + 96 <= old(self).disk().len()
                &&& final(self).disk() == update_bytes(
                    old(self).disk(),
                    inode_offset(inode_index as int),
                    encode_inode(inode@),
                )
            },
    {
        let buff = inode.to_bytes();
        let offset = self.get_inode_offset_by_index(inode_index);
        proof {
            if self.reliable() && BLOCKS_OFFSET <= self.disk().len() && inode_index < 512 {
                lemma_fits_meta(offset as int, 96, self.disk().len() as int);
            }
        }
        self.write_at(offset, buff.as_slice())
    }

    /// Where inode `inode_index` is stored.
    pub fn get_inode_offset_by_index(&mut self, inode_index: usize) -> (offset: usize)
        requires
            inode_index * 96 <= usize::MAX,
        ensures
            offset == inode_offset(inode_index as int),
            *final(self) == *old(self),
    {
        inode_index * INODE_SIZE
    }

    /// The inode stored at `inode_offset`.
    pub fn get_inode_index_by_offset(&mut self, inode_offset: usize) -> (index: usize)
        ensures
            index == inode_offset / 96,
            *final(self) == *old(self),
    {
        inode_offset / INODE_SIZE
    }

    // ----- block states -----

    /// Reads the state of block `block_index` from the byte map.
    pub fn get_block_state(&mut self, block_index: usize) -> (r: Result<BlockState, FsError>)
        requires
            BYTE_MAP_OFFSET + block_index + 1 <= usize::MAX,
        ensures
            final(self).disk() == old(self).disk(),
            final(self).reliable() == old(self).reliable(),
            old(self).reliable() && BLOCKS_OFFSET <= old(self).disk().len() && block_index < 1024 ==> !is_io_error(r),
            r is Ok || is_io_error(r) || r == Err::<BlockState, FsError>(
                FsError::InvalidBlockState,
            ),
            !is_io_error(r) && old(self).reliable() ==> state_offset(block_index as int) < old(self).disk().len(),
            r matches Ok(s) ==> (old(self).reliable() ==> old(self).disk()[state_offset(block_index as int)]
                == state_byte(s)),
            r == Err::<BlockState, FsError>(FsError::InvalidBlockState) && old(self).reliable() ==> old(
                self,
            ).disk()[state_offset(block_index as int)] > 1,
    {
        proof {
            if self.reliable() && BLOCKS_OFFSET <= self.disk().len() && block_index < 1024 {
                lemma_fits_meta(49152 + block_index, 1, self.disk().len() as int);
            }
        }
        let buff = self.read_at(BYTE_MAP_OFFSET + block_index, 1)?;
        proof {
            if self.reliable() {
                assert(buff@[0] == old(self).disk()[state_offset(block_index as int)]);
            }
        }
        if buff[0] == 0 {
            Ok(BlockState::Free)
        } else if buff[0] == 1 {
            Ok(BlockState::Taken)
        } else {
            Err(FsError::InvalidBlockState)
        }
    }

    /// Records `block_state` for block `block_index` in the byte map.
    pub fn set_block_state(&mut self, block_state: BlockState, block_index: usize) -> (r: Result<(), FsError>)
        requires
            BYTE_MAP_OFFSET + block_index + 1 <= usize::MAX,
        ensures
            final(self).disk().len() == old(self).disk().len(),
            final(self).reliable() == old(self).reliable(),
            old(self).reliable() && BLOCKS_OFFSET <= old(self).disk().len() && block_index < 1024 ==> r is Ok,
            r is Ok || is_io_error(r),
            r is Ok && old(self).reliable() ==> {
                &&& state_offset(block_index as int) < old(self).disk().len()
                &&& final(self).disk() == old(self).disk().update(
                    state_offset(block_index as int),
                    state_byte(block_state),
                )
            },
    {
        let byte: u8 = match block_state {
            BlockState::Free => 0,
            BlockState::Taken => 1,
        };
        let mut buff: Vec<u8> = Vec::new();
        buff.push(byte);
        proof {
            if self.reliable() && BLOCKS_OFFSET <= self.disk().len() && block_index < 1024 {
                lemma_fits_meta(49152 + block_index, 1, self.disk().len() as int);
            }
        }
        let r = self.write_at(BYTE_MAP_OFFSET + block_index, buff.as_slice());
        proof {
            if r is Ok && self.reliable() {
                assert(update_bytes(old(self).disk(), state_offset(block_index as int), buff@)
                    =~= old(self).disk().update(state_offset(block_index as int), byte));
            }
        }
        r
    }

    /// The lowest block whose state is free.
    pub fn get_first_free_block_index(&mut self) -> (r: Result<usize, FsError>)
        ensures
            final(self).disk() == old(self).disk(),
            final(self).reliable() == old(self).reliable(),
            old(self).sound() ==> !is_io_error(r),
            r is Ok || is_io_error(r) || r == Err::<usize, FsError>(FsError::NoFreeBlock) || r
                == Err::<usize, FsError>(FsError::InvalidBlockState),
            r matches Ok(b) ==> b < NUMBER_OF_BLOCKS,
            r matches Ok(b) ==> (old(self).reliable() ==> {
                &&& state_offset(b as int) < old(self).disk().len()
                &&& old(self).disk()[state_offset(b as int)] == 0
                &&& forall|j: int| 0 <= j < b ==> old(self).disk()[#[trigger] state_offset(j)] == 1
            }),
            r == Err::<usize, FsError>(FsError::NoFreeBlock) && old(self).reliable() ==> {
                &&& state_offset(1023) < old(self).disk().len()
                &&& forall|j: int| 0 <= j < 1024 ==> old(self).disk()[#[trigger] state_offset(j)] == 1
            },
            r == Err::<usize, FsError>(FsError::InvalidBlockState) && old(self).reliable() ==> exists|j: int|
                0 <= j < 1024 && old(self).disk()[#[trigger] state_offset(j)] > 1 && state_offset(j) < old(
                    self,
                ).disk().len() && forall|k: int| 0 <= k < j ==> old(self).disk()[#[trigger] state_offset(k)] == 1,
    {
        let mut i: usize = 0;
        while i < NUMBER_OF_BLOCKS
            invariant
                i <= 1024,
                self.disk() == old(self).disk(),
                self.reliable() == old(self).reliable(),
                self.reliable() && i > 0 ==> state_offset(i - 1) < self.disk().len(),
                self.reliable() ==> forall|j: int| 0 <= j < i ==> self.disk()[#[trigger] state_offset(j)] == 1,
            decreases 1024 - i,
        {
            match self.get_block_state(i) {
                Ok(BlockState::Free) => return Ok(i),
                Ok(BlockState::Taken) => {},
                Err(e) => return Err(e),
            }
            i += 1;
        }
        Err(FsError::NoFreeBlock)
    }

    // ----- blocks -----

    /// Where block `block_index` is stored.
    pub fn get_block_offset_by_index(&mut self, block_index: usize) -> (offset: usize)
        requires
            BLOCKS_OFFSET + block_index * 512 <= usize::MAX,
        ensures
            offset == block_offset(block_index as int),
            *final(self) == *old(self),
    {
        BLOCKS_OFFSET + block_index * BLOCK_SIZE
    }

    /// The block index computed from an offset, as the layout's arithmetic
    /// has it: the distance from `block_offset` up to the first block, in
    /// blocks.
    pub fn get_block_index_by_offset(&mut self, block_offset: usize) -> (index: usize)
        requires
            block_offset <= BLOCKS_OFFSET,
        ensures
            index == (BLOCKS_OFFSET - block_offset) / 512,
            *final(self) == *old(self),
    {
        (BLOCKS_OFFSET - block_offset) / BLOCK_SIZE
    }

    /// The 512 bytes of block `block_index`.
    pub fn get_block(&mut self, block_index: usize) -> (r: Result<Vec<u8>, FsError>)
        requires
            BLOCKS_OFFSET + block_index * 512 + 512 <= usize::MAX,
        ensures
            final(self).disk() == old(self).disk(),
            final(self).reliable() == old(self).reliable(),
            old(self).sound() && block_index < 1024 ==> r is Ok,
            r is Ok || is_io_error(r),
            r matches Ok(v) ==> v@.len() == 512,
            r matches Ok(v) ==> (old(self).reliable() ==> {
                &&& block_offset(block_index as int) + 512 <= old(self).disk().len()
                &&& v@ == old(self).disk().subrange(
                    block_offset(block_index as int),
                    block_offset(block_index as int) + 512,
                )
            }),
    {
        let offset = self.get_block_offset_by_index(block_index);
        proof {
            if self.sound() && block_index < 1024 {
                lemma_fits_layout(offset as int, 512, self.disk().len() as int);
            }
        }
        self.read_at(offset, BLOCK_SIZE)
    }

    /// Writes `content` from the start of block `block_index` on.
    pub fn set_block(&mut self, block_index: usize, content: Vec<u8>) -> (r: Result<(), FsError>)
        requires
            BLOCKS_OFFSET + block_index * 512 <= usize::MAX,
        ensures
            final(self).disk().len() == old(self).disk().len(),
            final(self).reliable() == old(self).reliable(),
            old(self).sound() && block_index < 1024 && 0 < content@.len() <= 512 ==> r is Ok,
            r is Ok || is_io_error(r),
            r is Ok && old(self).reliable() ==> {
                &&& block_offset(block_index as int) + content@.len() <= old(self).disk().len()
                &&& final(self).disk() == update_bytes(
                    old(self).disk(),
                    block_offset(block_index as int),
                    content@,
                )
            },
    {
        let offset = self.get_block_offset_by_index(block_index);
        proof {
            if self.sound() && block_index < 1024 && 0 < content@.len() <= 512 {
                lemma_fits_layout(offset as int, content@.len() as int, self.disk().len() as int);
            }
        }
        self.write_at(offset, content.as_slice())
    }

    /// The lowest inode of the table whose type is free.
    pub fn get_first_free_inode_index(&mut self) -> (r: Result<usize, FsError>)
        ensures
            final(self).disk() == old(self).disk(),
            final(self).reliable() == old(self).reliable(),
            old(self).sound() ==> !is_io_error(r),
            r is Ok || is_io_error(r) || r == Err::<usize, FsError>(FsError::NoFreeInode) || r
                == Err::<usize, FsError>(FsError::CorruptInode),
            r matches Ok(i) ==> i < NUMBER_OF_INODES,
            r matches Ok(i) ==> (old(self).reliable() ==> {
                &&& inode_at(old(self).disk(), i as int) matches Some(v) && v.kind == InodeType::Free
                &&& forall|j: int|
                    0 <= j < i ==> #[trigger] inode_in_use(old(self).disk(), j)
            }),
            r == Err::<usize, FsError>(FsError::NoFreeInode) && old(self).reliable() ==> forall|j: int|
                0 <= j < 512 ==> #[trigger] inode_in_use(old(self).disk(), j),
            r == Err::<usize, FsError>(FsError::CorruptInode) && old(self).reliable() ==> exists|j: int|
                0 <= j < 512 && #[trigger] inode_at(old(self).disk(), j) is None,
    {
        let mut i: usize = 0;
        while i < NUMBER_OF_INODES
            invariant
                i <= 512,
                self.disk() == old(self).disk(),
                self.reliable() == old(self).reliable(),
                self.reliable() ==> forall|j: int|
                    0 <= j < i ==> #[trigger] inode_in_use(self.disk(), j),
            decreases 512 - i,
        {
            let inode = match self.get_inode(i) {
                Ok(inode) => inode,
                Err(e) => return Err(e),
            };
            match inode.inode_type {
                InodeType::Free => return Ok(i),
                _ => {},
            }
            i += 1;
        }
        Err(FsError::NoFreeInode)
    }

    // ----- content -----

    /// The content of the inode at `inode_index`: its first `content_length`
    /// bytes, taken block after block, each read byte by byte.
    pub fn get_content_by_inode_index(&mut self, inode_index: usize) -> (r: Result<Vec<u8>, FsError>)
        requires
            inode_index * 96 + 96 <= usize::MAX,
        ensures
            final(self).disk() == old(self).disk(),
            final(self).reliable() == old(self).reliable(),
            old(self).sound() && inode_index < 512 && fs_wf(old(self).disk()) ==> !is_io_error(r),
            r is Ok || is_io_error(r) || r == Err::<Vec<u8>, FsError>(FsError::CorruptInode) || r
                == Err::<Vec<u8>, FsError>(FsError::TooManyBlocks),
            r matches Ok(c) ==> (old(self).reliable() ==> {
                &&& inode_at(old(self).disk(), inode_index as int) matches Some(v)
                &&& block_count(v.length as int) <= 10
                &&& c@ == content_of(old(self).disk(), v)
            }),
            old(self).reliable() ==> {
                &&& inode_at(old(self).disk(), inode_index as int) is None ==> r is Err
                &&& r == Err::<Vec<u8>, FsError>(FsError::CorruptInode) ==> inode_at(
                    old(self).disk(),
                    inode_index as int,
                ) is None
                &&& r == Err::<Vec<u8>, FsError>(FsError::TooManyBlocks) ==> spans_too_many_blocks(
                    old(self).disk(),
                    inode_index as int,
                )
                &&& spans_too_many_blocks(old(self).disk(), inode_index as int) ==> r is Err
            },
    {
        let inode = self.get_inode(inode_index)?;
        let ghost d = self.disk();
        let ghost v = inode@;
        let ghost good = old(self).sound() && inode_index < 512 && fs_wf(d);
        let length = inode.content_length;
        let num_of_blocks = ceil_blocks(length);
        if num_of_blocks > BLOCKS_IN_INODE {
            return Err(FsError::TooManyBlocks);
        }
        proof {
            if good {
                assert forall|k: int| 0 <= k < num_of_blocks implies v.blocks[k] < 1024 by {
                    assert(uses_block(d, inode_index as int, k));
                }
            }
        }
        let mut content: Vec<u8> = Vec::new();
        let mut buff: Vec<u8> = vec![0u8; 1];
        let mut counter: usize = 0;
        let mut i: usize = 0;
        while i < num_of_blocks
            invariant
                i <= num_of_blocks <= 10,
                num_of_blocks == block_count(length as int),
                length == v.length,
                v == inode@,
                v.blocks.len() == 10,
                counter == (if i * 512 <= length { i * 512 } else { length as int }),
                self.disk() == d,
                d == old(self).disk(),
                self.reliable() == old(self).reliable(),
                good == (old(self).sound() && inode_index < 512 && fs_wf(d)),
                good ==> forall|k: int| 0 <= k < num_of_blocks ==> v.blocks[k] < 1024,
                buff@.len() == 1,
                content@.len() == counter,
                self.reliable() ==> content@ == content_of(d, v).subrange(0, counter as int),
            decreases num_of_blocks - i,
        {
            let block_index = inode.blocks_indexes[i];
            if block_index > (usize::MAX - BLOCKS_OFFSET - BLOCK_SIZE) / BLOCK_SIZE {
                return Err(FsError::Io(IoError::Overflow));
            }
            proof {
                let lim: int = (usize::MAX - 50176 - 512) as int;
                assert(block_index * 512 <= lim) by (nonlinear_arith)
                    requires block_index <= lim / 512;
                assert(i * 512 < length) by (nonlinear_arith)
                    requires i < num_of_blocks, num_of_blocks == (length + 511) / 512;
            }
            let offset = self.get_block_offset_by_index(block_index);
            let _ = self.reader_writer.seek(SeekFrom::Start(offset));
            let chunk: usize = if length - counter < BLOCK_SIZE { length - counter } else { BLOCK_SIZE };
            let mut k: usize = 0;
            while k < chunk
                invariant
                    k <= chunk <= 512,
                    counter == i * 512 + k,
                    i * 512 + chunk <= length,
                    chunk == (if length - i * 512 < 512 { length - i * 512 } else { 512 }),
                    self.reader_writer.position() == offset + k,
                    offset == block_offset(block_index as int),
                    offset + 512 <= usize::MAX,
                    block_index == v.blocks[i as int],
                    i < 10,
                    length == v.length,
                    v.blocks.len() == 10,
                    self.disk() == d,
                    d == old(self).disk(),
                    self.reliable() == old(self).reliable(),
                    good == (old(self).sound() && inode_index < 512 && fs_wf(d)),
                    good ==> block_index < 1024,
                    buff@.len() == 1,
                    content@.len() == counter,
                self.reliable() ==> content@ == content_of(d, v).subrange(0, counter as int),
                decreases chunk - k,
            {
                proof {
                    if good {
                        lemma_fits_layout(offset + k, 1, d.len() as int);
                    }
                }
                counter += 1;
                match self.reader_writer.read(&mut buff) {
                    Ok(_) => {},
                    Err(e) => return Err(FsError::Io(e)),
                }
                proof {
                    if self.reliable() {
                    let j = i * 512 + k;
                    assert(j / 512 == i) by (nonlinear_arith)
                        requires j == i * 512 + k, 0 <= k < 512;
                    assert(j % 512 == k) by (nonlinear_arith)
                        requires j == i * 512 + k, 0 <= k < 512;
                    assert(buff@[0] == d[offset + k]);
                    assert(content_of(d, v)[j] == d[block_offset(v.blocks[j / 512] as int) + j % 512]);
                    }
                }
                content.push(buff[0]);
                proof {
                    if self.reliable() {
                        assert(content@ =~= content_of(d, v).subrange(0, counter as int));
                    }
                }
                k += 1;
            }
            i += 1;
        }
        proof {
            assert(counter == length) by (nonlinear_arith)
                requires
                    counter == (if i * 512 <= length { i * 512 } else { length as int }),
                    i == num_of_blocks,
                    num_of_blocks == (length + 511) / 512;
            if self.reliable() {
                assert(content@ =~= content_of(d, v));
            }
        }
        Ok(content)
    }

    /// Replaces the content of the inode at `inode_index` with `content`:
    /// the inode's old blocks are marked free, the content is written to the
    /// lowest free blocks, 512 bytes to a block, each marked taken as it is
    /// chosen, and the inode is stored again with the new blocks and length.
    pub fn set_content_by_inode_index(&mut self, inode_index: usize, content: Vec<u8>) -> (r: Result<(), FsError>)
        requires
            inode_index * 96 + 96 <= usize::MAX,
            content@.len() <= 5120,
        ensures
            final(self).disk().len() == old(self).disk().len(),
            final(self).reliable() == old(self).reliable(),
            old(self).sound() && inode_index < 512 && fs_wf(old(self).disk()) ==> !is_io_error(r),
            r == Err::<(), FsError>(FsError::CorruptInode) && old(self).reliable() ==> inode_at(old(self).disk(), inode_index as int) is None,
            r == Err::<(), FsError>(FsError::TooManyBlocks) && old(self).reliable() ==> spans_too_many_blocks(old(self).disk(), inode_index as int),
            old(self).reliable() && inode_index < 512 && fs_wf(old(self).disk()) ==> r != Err::<(), FsError>(FsError::InvalidBlockState),
            r == Err::<(), FsError>(FsError::NoFreeBlock) && old(self).reliable() && inode_index < 512 && fs_wf(old(self).disk())
                ==> free_for_inode(old(self).disk(), inode_index as int) < block_count(content@.len() as int),
            old(self).sound() && inode_index < 512 && fs_wf(old(self).disk()) && free_for_inode(
                old(self).disk(),
                inode_index as int,
            ) >= block_count(content@.len() as int) ==> r is Ok,
            old(self).sound() && inode_index < 512 && fs_wf(old(self).disk()) ==> (r == Err::<(), FsError>(
                FsError::NoFreeBlock,
            ) <==> free_for_inode(old(self).disk(), inode_index as int) < block_count(content@.len() as int)),
            old(self).sound() && inode_index < 512 && spans_too_many_blocks(old(self).disk(), inode_index as int)
                ==> r == Err::<(), FsError>(FsError::TooManyBlocks),
            r is Ok || is_io_error(r) || r == Err::<(), FsError>(FsError::CorruptInode) || r == Err::<
                (),
                FsError,
            >(FsError::TooManyBlocks) || r
                == Err::<(), FsError>(FsError::NoFreeBlock) || r == Err::<(), FsError>(
                FsError::InvalidBlockState,
            ),
            inode_at(old(self).disk(), inode_index as int) is None && old(self).reliable() ==> r is Err,
            spans_too_many_blocks(old(self).disk(), inode_index as int) && old(self).reliable() ==> r is Err,
            r is Ok && old(self).reliable() ==> {
                &&& inode_at(old(self).disk(), inode_index as int) matches Some(v)
                &&& inode_at(final(self).disk(), inode_index as int) matches Some(w)
                &&& w.kind == v.kind
                &&& w.length == content@.len()
                &&& inode_index < 512 ==> content_of(final(self).disk(), w) == content@
            },
            r is Ok && old(self).reliable() ==> forall|j: int|
                0 <= j < 512 && j != inode_index ==> #[trigger] inode_at(final(self).disk(), j)
                    == inode_at(old(self).disk(), j),
            r is Ok && old(self).reliable() && inode_index < 512 && BLOCKS_OFFSET <= old(self).disk().len() ==> {
                let v = inode_at(old(self).disk(), inode_index as int)->0;
                let w = inode_at(final(self).disk(), inode_index as int)->0;
                let nb = block_count(v.length as int);
                let n = block_count(content@.len() as int);
                &&& first_fit(old(self).disk(), v.blocks, nb, w.blocks, n)
                &&& states_moved(old(self).disk(), v.blocks, nb, w.blocks, n, final(self).disk())
            },
            r is Ok && old(self).reliable() && inode_index < 512 && fs_wf(old(self).disk()) ==> free_blocks(final(self).disk())
                + block_count(content@.len() as int) == free_for_inode(old(self).disk(), inode_index as int),
            r is Ok && old(self).reliable() && inode_index < 512 && map_consistent(old(self).disk()) ==> {
                &&& map_consistent(final(self).disk())
                &&& forall|j: int|
                    0 <= j < 512 && j != inode_index ==> #[trigger] inode_at(final(self).disk(), j)
                        == inode_at(old(self).disk(), j) && content_of(
                        final(self).disk(),
                        inode_at(old(self).disk(), j)->0,
                    ) == content_of(old(self).disk(), inode_at(old(self).disk(), j)->0)
            },
            r is Ok && old(self).reliable() && inode_index < 512 && fs_wf(old(self).disk()) ==> {
                &&& fs_wf(final(self).disk())
                &&& forall|j: int|
                    0 <= j < 512 && j != inode_index ==> #[trigger] inode_at(final(self).disk(), j)
                        == inode_at(old(self).disk(), j) && content_of(
                        final(self).disk(),
                        inode_at(old(self).disk(), j)->0,
                    ) == content_of(old(self).disk(), inode_at(old(self).disk(), j)->0)
            },
    {
        let ghost rel = self.reliable();
        let mut inode = self.get_inode(inode_index)?;
        let ghost d0 = self.disk();
        let ghost v = inode@;
        let ghost good = old(self).sound() && inode_index < 512 && fs_wf(d0);
        let ghost wf = rel && inode_index < 512 && fs_wf(d0);
        let ghost lay = rel && inode_index < 512 && BLOCKS_OFFSET <= d0.len();
        let length = content.len();
        let num_of_blocks = ceil_blocks(inode.content_length);
        if num_of_blocks > BLOCKS_IN_INODE {
            return Err(FsError::TooManyBlocks);
        }
        proof {
            if wf {
                assert forall|k: int| 0 <= k < num_of_blocks implies v.blocks[k] < 1024 by {
                    assert(uses_block(d0, inode_index as int, k));
                }
            }
        }
        let mut i: usize = 0;
        while i < num_of_blocks
            invariant
                i <= num_of_blocks <= 10,
                inode@ == v,
                rel ==> inode_at(d0, inode_index as int) == Some(v),
                num_of_blocks == block_count(v.length as int),
                v.blocks.len() == 10,
                d0 == old(self).disk(),
                self.disk().len() == d0.len(),
                self.reliable() == old(self).reliable(),
                good == (old(self).sound() && inode_index < 512 && fs_wf(d0)),
                rel == old(self).reliable(),
                wf == (rel && inode_index < 512 && fs_wf(d0)),
                lay == (rel && inode_index < 512 && BLOCKS_OFFSET <= d0.len()),
                wf ==> forall|k: int| 0 <= k < num_of_blocks ==> v.blocks[k] < 1024,
                wf ==> forall|c: int| 0 <= c < 1024 ==> #[trigger] self.disk()[state_offset(c)] <= 1,
                rel ==> forall|k: int|
                    0 <= k < i ==> state_offset(#[trigger] v.blocks[k] as int) < d0.len() && self.disk()[state_offset(
                        v.blocks[k] as int,
                    )] == 0,
                rel ==> forall|q: int|
                    0 <= q < d0.len() && not_state_of(v.blocks, i as int, q) ==> #[trigger] self.disk()[q]
                        == d0[q],
                rel ==> forall|q: int|
                    0 <= q < d0.len() ==> #[trigger] self.disk()[q] == d0[q] || self.disk()[q] == 0,
            decreases num_of_blocks - i,
        {
            let b = inode.blocks_indexes[i];
            if b > usize::MAX - BYTE_MAP_OFFSET - 1 {
                return Err(FsError::Io(IoError::Overflow));
            }
            let ghost before = self.disk();
            self.set_block_state(BlockState::Free, b)?;
            proof {
                if rel {
                assert forall|k: int| 0 <= k < i + 1 implies state_offset(#[trigger] v.blocks[k] as int) < d0.len()
                    && self.disk()[state_offset(v.blocks[k] as int)] == 0 by {
                    if k < i {
                        assert(before[state_offset(v.blocks[k] as int)] == 0);
                    }
                }
                assert forall|q: int|
                    0 <= q < d0.len() && not_state_of(v.blocks, i + 1, q) implies #[trigger] self.disk()[q]
                        == d0[q] by {
                    assert(q != state_offset(v.blocks[i as int] as int));
                    assert(not_state_of(v.blocks, i as int, q));
                }
                }
            }
            i += 1;
        }
        let ghost d1 = self.disk();
        let ghost c1 = count_free(d1, v.blocks, 0, 1024);
        proof {
            if lay {
                assert forall|c: int| 0 <= c < 1024 implies free_once_released(d1, v.blocks, 0, c)
                    == free_once_released(d0, v.blocks, num_of_blocks as int, c) by {
                    if exists|k: int| 0 <= k < num_of_blocks && v.blocks[k] as int == c {
                        let k = choose|k: int| 0 <= k < num_of_blocks && v.blocks[k] as int == c;
                        assert(d1[state_offset(v.blocks[k] as int)] == 0);
                    } else {
                        assert(not_state_of(v.blocks, num_of_blocks as int, state_offset(c)));
                        assert(d1[state_offset(c)] == d0[state_offset(c)]);
                    }
                }
                lemma_count_free_ext(d1, v.blocks, 0, d0, v.blocks, num_of_blocks as int, 1024);
                assert forall|c: int| 0 <= c < 1024 implies #[trigger] d1[state_offset(c)] == if exists|k: int|
                    0 <= k < num_of_blocks && v.blocks[k] as int == c {
                    0u8
                } else {
                    d0[state_offset(c)]
                } by {
                    if exists|k: int| 0 <= k < num_of_blocks && v.blocks[k] as int == c {
                        let k = choose|k: int| 0 <= k < num_of_blocks && v.blocks[k] as int == c;
                        assert(d1[state_offset(v.blocks[k] as int)] == 0);
                    } else {
                        assert(not_state_of(v.blocks, num_of_blocks as int, state_offset(c)));
                    }
                }
            }
        }
        let blocks_needed = ceil_blocks(length);
        proof {
            assert(blocks_needed <= 10) by (nonlinear_arith)
                requires blocks_needed == (length + 511) / 512, length <= 5120;
        }
        let mut i: usize = 0;
        while i < blocks_needed
            invariant
                i <= blocks_needed <= 10,
                blocks_needed == block_count(length as int),
                length == content@.len(),
                length <= 5120,
                self.reliable() == old(self).reliable(),
                good == (old(self).sound() && inode_index < 512 && fs_wf(d0)),
                rel == old(self).reliable(),
                wf == (rel && inode_index < 512 && fs_wf(d0)),
                lay == (rel && inode_index < 512 && BLOCKS_OFFSET <= d0.len()),
                wf ==> forall|c: int| 0 <= c < 1024 ==> #[trigger] self.disk()[state_offset(c)] <= 1,
                wf ==> count_free(self.disk(), v.blocks, 0, 1024) + i == c1,
                wf ==> c1 == count_free(d0, v.blocks, num_of_blocks as int, 1024),
                lay ==> forall|c: int|
                    0 <= c < 1024 ==> #[trigger] free_once_released(d1, v.blocks, 0, c) == free_once_released(
                        d0,
                        v.blocks,
                        num_of_blocks as int,
                        c,
                    ),
                lay ==> forall|c: int| 0 <= c < 1024 ==> #[trigger] d1[state_offset(c)] == if exists|k: int|
                    0 <= k < num_of_blocks && v.blocks[k] as int == c {
                    0u8
                } else {
                    d0[state_offset(c)]
                },
                lay ==> first_fit(d1, v.blocks, 0, inode@.blocks, i as int),
                num_of_blocks == block_count(v.length as int),
                num_of_blocks <= 10,
                rel ==> inode_at(d0, inode_index as int) == Some(v),
                inode@.kind == v.kind,
                inode@.length == v.length,
                inode@.blocks.len() == 10,
                forall|k: int| i <= k < 10 ==> #[trigger] inode@.blocks[k] == v.blocks[k],
                d0 == old(self).disk(),
                d1.len() == d0.len(),
                self.disk().len() == d0.len(),
                forall|k: int| 0 <= k < i ==> #[trigger] inode@.blocks[k] < 1024,
                rel ==> forall|k: int|
                    0 <= k < i ==> {
                        &&& d1[state_offset(#[trigger] inode@.blocks[k] as int)] == 0
                        &&& self.disk()[state_offset(inode@.blocks[k] as int)] == 1
                    },
                rel ==> forall|k1: int, k2: int|
                    0 <= k1 < k2 < i ==> #[trigger] inode@.blocks[k1] != #[trigger] inode@.blocks[k2],
                rel ==> forall|p: int|
                    0 <= p < i * 512 && p < length ==> #[trigger] stored_at(
                        self.disk(),
                        inode@.blocks,
                        content@,
                        p,
                    ),
                rel ==> forall|q: int|
                    0 <= q < d0.len() && untouched_by(inode@.blocks, i as int, q) ==> #[trigger] self.disk()[q]
                        == d1[q],
            decreases blocks_needed - i,
        {
            let ghost before = self.disk();
            let ghost nbs = inode@.blocks;
            proof {
                assert(i * 512 < length) by (nonlinear_arith)
                    requires i < blocks_needed, blocks_needed == (length + 511) / 512;
            }
            let to_write: usize = if length - BLOCK_SIZE * i < BLOCK_SIZE {
                length - BLOCK_SIZE * i
            } else {
                BLOCK_SIZE
            };
            let block_index = match self.get_first_free_block_index() {
                Ok(b) => b,
                Err(e) => {
                    proof {
                        if wf && e == FsError::NoFreeBlock {
                            lemma_count_free_none(self.disk(), v.blocks, 1024);
                        }
                    }
                    return Err(e);
                },
            };
            proof {
                if rel {
                assert forall|k: int| 0 <= k < i implies nbs[k] != block_index by {
                    if nbs[k] == block_index {
                        assert(self.disk()[state_offset(nbs[k] as int)] == 1);
                    }
                }
                assert(untouched_by(nbs, i as int, state_offset(block_index as int)));
                assert(d1[state_offset(block_index as int)] == 0);
                if lay {
                    let now = self.disk();
                    assert forall|c: int|
                        0 <= c < 1024 && now[#[trigger] state_offset(c)] != d1[state_offset(c)] implies exists|k: int|
                            0 <= k < i && nbs[k] as int == c by {
                        if !(exists|k: int| 0 <= k < i && nbs[k] as int == c) {
                            assert(untouched_by(nbs, i as int, state_offset(c)));
                        }
                    }
                    lemma_first_fit_step(d1, now, v.blocks, nbs, i as int, block_index as int);
                }
                }
            }
            let offset = self.get_block_offset_by_index(block_index);
            self.set_block_state(BlockState::Taken, block_index)?;
            let ghost mid = self.disk();
            let chunk = slice_subrange(content.as_slice(), BLOCK_SIZE * i, BLOCK_SIZE * i + to_write);
            proof {
                if good {
                    lemma_fits_layout(offset as int, to_write as int, d0.len() as int);
                }
            }
            self.write_at(offset, chunk)?;
            proof {
                if wf {
                    let now = self.disk();
                    assert forall|c: int| 0 <= c < 1024 && c != block_index implies mid[#[trigger] state_offset(c)]
                        == before[state_offset(c)] by {}
                    lemma_count_free_take(before, mid, v.blocks, block_index as int, 1024);
                    assert forall|c: int| 0 <= c < 1024 implies free_once_released(now, v.blocks, 0, c)
                        == free_once_released(mid, v.blocks, 0, c) by {
                        assert(now[state_offset(c)] == mid[state_offset(c)]);
                    }
                    lemma_count_free_ext(now, v.blocks, 0, mid, v.blocks, 0, 1024);
                }
            }
            inode.blocks_indexes[i] = block_index;
            proof {
                let nb2 = inode@.blocks;
                assert(nb2 == nbs.update(i as int, block_index));
                let now = self.disk();
                assert forall|k: int| 0 <= k < i + 1 implies #[trigger] nb2[k] < 1024 by {
                    if k < i {
                        assert(nb2[k] == nbs[k]);
                    }
                }
                if rel {
                assert forall|q: int|
                    0 <= q < d0.len() && untouched_by(nb2, i + 1, q) implies #[trigger] now[q]
                        == d1[q] by {
                    assert(q != state_offset(nb2[i as int] as int));
                    assert forall|k: int| 0 <= k < i implies q != state_offset(#[trigger] nbs[k] as int) && (
                    q < block_offset(nbs[k] as int) || q >= block_offset(nbs[k] as int) + 512) by {
                        assert(nb2[k] == nbs[k]);
                    }
                    assert(untouched_by(nbs, i as int, q));
                }
                assert forall|k: int| 0 <= k < i + 1 implies {
                    &&& #[trigger] nb2[k] < 1024
                    &&& d1[state_offset(nb2[k] as int)] == 0
                    &&& now[state_offset(nb2[k] as int)] == 1
                } by {
                    if k < i {
                        assert(nb2[k] == nbs[k]);
                        assert(before[state_offset(nbs[k] as int)] == 1);
                    }
                }
                assert forall|k1: int, k2: int|
                    0 <= k1 < k2 < i + 1 implies #[trigger] nb2[k1] != #[trigger] nb2[k2] by {
                    if k2 == i {
                        assert(nb2[k1] == nbs[k1]);
                    } else {
                        assert(nb2[k1] == nbs[k1]);
                        assert(nb2[k2] == nbs[k2]);
                    }
                }
                assert forall|p: int|
                    0 <= p < (i + 1) * 512 && p < length implies #[trigger] stored_at(now, nb2, content@, p) by {
                    lemma_block_pos(p, length as int);
                    let blk = p / 512;
                    let pos = block_offset(nb2[blk] as int) + p % 512;
                    if p < i * 512 {
                        assert(blk < i) by (nonlinear_arith)
                            requires blk == p / 512, 0 <= p < i * 512;
                        assert(nb2[blk] == nbs[blk]);
                        assert(nbs[blk] != block_index);
                        assert(pos < block_offset(block_index as int) || pos >= block_offset(block_index as int) + 512) by (nonlinear_arith)
                            requires pos == 50176 + nbs[blk] * 512 + p % 512, 0 <= p % 512 < 512, nbs[blk] != block_index;
                        assert(pos != state_offset(block_index as int));
                        assert(stored_at(before, nbs, content@, p));
                        assert(before[pos] == content@[p]);
                        assert(pos < d0.len());
                        assert(mid[pos] == before[pos]);
                        assert(now[pos] == mid[pos]);
                    } else {
                        assert(blk == i) by (nonlinear_arith)
                            requires blk == p / 512, i * 512 <= p < (i + 1) * 512;
                        assert(p % 512 == p - i * 512) by (nonlinear_arith)
                            requires blk == p / 512, blk == i, 0 <= p;
                        assert(p % 512 < to_write);
                        assert(chunk@.len() == to_write);
                        assert(pos < d0.len());
                        assert(now[pos] == chunk@[p % 512]);
                        assert(chunk@[p % 512] == content@[p]);
                    }
                }
                }
            }
            i += 1;
        }
        let ghost d2 = self.disk();
        let ghost nbs = inode@.blocks;
        inode.content_length = length;
        let ghost w = inode@;
        self.set_inode(inode, inode_index)?;
        proof {
            if rel {
            let d3 = self.disk();
            inode_encoding_round_trip(w);
            assert(d3.subrange(inode_index * 96, inode_index * 96 + 96) =~= encode_inode(w));
            assert(inode_at(d3, inode_index as int) == Some(w));
            assert forall|j: int| 0 <= j < 512 && j != inode_index implies #[trigger] inode_at(d3, j)
                == inode_at(d0, j) by {
                assert forall|q: int| 0 <= q < d0.len() && j * 96 <= q < j * 96 + 96 implies d3[q] == d0[q] by {
                    assert(untouched_by(nbs, i as int, q));
                    assert(not_state_of(v.blocks, num_of_blocks as int, q));
                }
                lemma_inode_frame(d3, d0, j);
            }
            if inode_index < 512 {
                assert forall|p: int| 0 <= p < length implies d3[#[trigger] content_pos(w, p)] == content@[p] by {
                    lemma_block_pos(p, length as int);
                    assert(p < i * 512) by (nonlinear_arith)
                        requires i == blocks_needed, blocks_needed == (length + 511) / 512, 0 <= p < length;
                    assert(w.blocks == nbs);
                    assert(content_pos(w, p) == block_offset(nbs[p / 512] as int) + p % 512);
                    assert(0 <= p < i * 512 && p < length);
                    assert(stored_at(d2, nbs, content@, p));
                    assert(d2[content_pos(w, p)] == content@[p]);
                    assert(content_pos(w, p) >= 50176);
                }
                assert(content_of(d3, w) =~= content@) by {
                    assert forall|p: int| 0 <= p < length implies #[trigger] content_of(d3, w)[p]
                        == content@[p] by {
                        lemma_block_pos(p, length as int);
                        assert(p < i * 512) by (nonlinear_arith)
                            requires i == blocks_needed, blocks_needed == (length + 511) / 512, 0 <= p < length;
                        assert(d3[content_pos(w, p)] == content@[p]);
                    }
                }
                if map_consistent(d0) {
                    lemma_set_content_keeps_map(d0, d1, d2, d3, v, w, inode_index as int);
                }
                if fs_wf(d0) {
                    lemma_set_content_keeps_wf(d0, d1, d2, d3, v, w, inode_index as int);
                    assert forall|c: int| 0 <= c < 1024 implies #[trigger] free_once_released(d3, Seq::empty(), 0, c)
                        == free_once_released(d2, v.blocks, 0, c) by {
                        assert(d3[state_offset(c)] == d2[state_offset(c)]);
                    }
                    lemma_count_free_ext(d3, Seq::empty(), 0, d2, v.blocks, 0, 1024);
                }
                if lay {
                    lemma_first_fit_transfer(d1, v.blocks, 0, d0, v.blocks, num_of_blocks as int, nbs, i as int);
                    assert forall|c: int| 0 <= c < 1024 implies #[trigger] d3[state_offset(c)] == if exists|k: int|
                        0 <= k < i && nbs[k] as int == c {
                        1u8
                    } else if exists|k: int| 0 <= k < num_of_blocks && v.blocks[k] as int == c {
                        0u8
                    } else {
                        d0[state_offset(c)]
                    } by {
                        assert(d3[state_offset(c)] == d2[state_offset(c)]);
                        if exists|k: int| 0 <= k < i && nbs[k] as int == c {
                            let k = choose|k: int| 0 <= k < i && nbs[k] as int == c;
                            assert(d2[state_offset(nbs[k] as int)] == 1);
                        } else {
                            assert(untouched_by(nbs, i as int, state_offset(c)));
                            assert(d2[state_offset(c)] == d1[state_offset(c)]);
                        }
                    }
                }
            }
            }
        }
        Ok(())
    }

    /// Formats the device behind `reader_writer`: inode 0 becomes the empty
    /// root directory, every other inode of the table becomes free with no
    /// content, and every block is marked free. `on_progress` is told the
    /// percentage done as the work goes: 0, 17, 34, 67 and 100.
    pub fn new<F: Fn(u32)>(reader_writer: ReaderWriter<D>, on_progress: F) -> (r: Result<FileSystem<D>, FsError>)
        requires
            forall|p: u32| progress_step(p) ==> #[trigger] on_progress.requires((p,)),
        ensures
            r is Ok || is_io_error(r),
            reader_writer.reliable() && BLOCKS_OFFSET <= reader_writer.contents().len() ==> r is Ok,
            r matches Ok(fs) ==> fs.disk().len() == reader_writer.contents().len() && fs.reliable()
                == reader_writer.reliable(),
            r matches Ok(fs) ==> (reader_writer.reliable() ==> {
                &&& forall|q: int|
                    BLOCKS_OFFSET <= q < fs.disk().len() ==> #[trigger] fs.disk()[q] == reader_writer.contents()[q]
                &&& formatted(fs.disk())
            }),
    {
        let ghost rel = reader_writer.reliable();
        let mut file_system = FileSystem { reader_writer };
        let ghost d0 = file_system.disk();
        let first_dir = Inode::empty(InodeType::Dir);
        file_system.set_inode(first_dir, 0)?;
        proof {
            if rel {
                lemma_empty_inode_stored(d0, file_system.disk(), 0, InodeType::Dir);
            }
        }
        on_progress(0);
        let mut i: usize = 1;
        while i < NUMBER_OF_INODES
            invariant
                forall|p: u32| progress_step(p) ==> #[trigger] on_progress.requires((p,)),
                file_system.reliable() == reader_writer.reliable(),
                d0.len() == reader_writer.contents().len(),
                d0 == reader_writer.contents(),
                rel == reader_writer.reliable(),
                rel ==> forall|q: int| 49152 <= q < d0.len() ==> #[trigger] file_system.disk()[q] == d0[q],
                1 <= i <= 512,
                file_system.disk().len() == d0.len(),
                rel ==> 96 <= d0.len(),
                rel ==> inode_at(file_system.disk(), 0) == Some(empty_inode(InodeType::Dir)),
                rel ==> forall|j: int|
                    1 <= j < i ==> #[trigger] inode_at(file_system.disk(), j) == Some(
                        empty_inode(InodeType::Free),
                    ),
            decreases 512 - i,
        {
            let default_inode = Inode::empty(InodeType::Free);
            let ghost before = file_system.disk();
            file_system.set_inode(default_inode, i)?;
            proof {
                if rel {
                    let now = file_system.disk();
                    lemma_empty_inode_stored(before, now, i as int, InodeType::Free);
                    assert forall|j: int| 0 <= j < i implies #[trigger] inode_at(now, j) == inode_at(before, j) by {
                        lemma_inode_frame(now, before, j);
                    }
                }
            }
            if i == NUMBER_OF_INODES / 2 {
                on_progress(17);
            }
            i += 1;
        }
        on_progress(34);
        let ghost d1 = file_system.disk();
        let mut b: usize = 0;
        while b < NUMBER_OF_BLOCKS
            invariant
                forall|p: u32| progress_step(p) ==> #[trigger] on_progress.requires((p,)),
                file_system.reliable() == reader_writer.reliable(),
                d0.len() == reader_writer.contents().len(),
                d0 == reader_writer.contents(),
                rel == reader_writer.reliable(),
                rel ==> forall|q: int| 50176 <= q < d0.len() ==> #[trigger] file_system.disk()[q] == d0[q],
                b <= 1024,
                file_system.disk().len() == d0.len(),
                rel ==> forall|q: int| 0 <= q < 49152 && q < d0.len() ==> #[trigger] file_system.disk()[q] == d1[q],
                rel ==> forall|c: int| 0 <= c < b ==> #[trigger] file_system.disk()[state_offset(c)] == 0,
                rel && b > 0 ==> state_offset(b - 1) < d0.len(),
            decreases 1024 - b,
        {
            file_system.set_block_state(BlockState::Free, b)?;
            if b == NUMBER_OF_BLOCKS / 2 {
                on_progress(67);
            }
            b += 1;
        }
        on_progress(100);
        proof {
            if rel {
            let d2 = file_system.disk();
            assert forall|j: int| 0 <= j < 512 implies #[trigger] inode_at(d2, j) == inode_at(d1, j) by {
                lemma_inode_frame(d2, d1, j);
            }
            assert(inode_at(d2, 0) == inode_at(d1, 0));
            if FS_SIZE <= d2.len() {
                assert forall|i: int, k: int| #[trigger] uses_block(d2, i, k) implies block_of(d2, i, k) < 1024
                    && d2[state_offset(block_of(d2, i, k))] == 1 by {
                    if i > 0 {
                        assert(inode_at(d2, i) == inode_at(d1, i));
                    }
                }
                assert forall|i: int| 0 <= i < 512 implies #[trigger] inode_at(d2, i) is Some && block_count(
                    inode_at(d2, i)->0.length as int,
                ) <= 10 by {
                    if i > 0 {
                        assert(inode_at(d2, i) == inode_at(d1, i));
                    }
                }
            }
            }
        }
        Ok(file_system)
    }

    // ----- directories -----

    /// The entries of the directory at `index_of_dir_inode`.
    pub fn get_entries_from_dir(&mut self, index_of_dir_inode: usize) -> (r: Result<DirEntries, FsError>)
        requires
            index_of_dir_inode * 96 + 96 <= usize::MAX,
        ensures
            final(self).disk() == old(self).disk(),
            final(self).reliable() == old(self).reliable(),
            old(self).sound() && index_of_dir_inode < 512 && fs_wf(old(self).disk()) ==> !is_io_error(r),
            r matches Ok(e) ==> (old(self).reliable() ==> dir_entries_at(old(self).disk(), index_of_dir_inode as int)
                == Ok::<Map<Seq<char>, usize>, FsError>(e@)),
            r matches Err(e) ==> is_io_error(r) || !old(self).reliable() || dir_entries_at(
                old(self).disk(),
                index_of_dir_inode as int,
            ) == Err::<Map<Seq<char>, usize>, FsError>(e),
    {
        let inode = self.get_inode(index_of_dir_inode)?;
        match inode.inode_type {
            InodeType::Dir => {},
            _ => return Err(FsError::NotADirectory),
        }
        let content = self.get_content_by_inode_index(index_of_dir_inode)?;
        match decode_dir_entries(&content) {
            Some(entries) => Ok(entries),
            None => Err(FsError::CorruptDirectory),
        }
    }

    /// Stores `dir_entries` as the content of the directory at
    /// `dir_inode_index`, in the order the map hands them out.
    pub fn set_files_to_dir(&mut self, dir_entries: &DirEntries, dir_inode_index: usize) -> (r: Result<(), FsError>)
        requires
            dir_inode_index * 96 + 96 <= usize::MAX,
        ensures
            final(self).disk().len() == old(self).disk().len(),
            final(self).reliable() == old(self).reliable(),
            old(self).sound() && dir_inode_index < 512 && fs_wf(old(self).disk()) ==> !is_io_error(r),
            r == Err::<(), FsError>(FsError::CorruptInode) && old(self).reliable() ==> inode_at(old(self).disk(), dir_inode_index as int) is None,
            old(self).reliable() && dir_inode_index < 512 && fs_wf(old(self).disk()) ==> r != Err::<(), FsError>(FsError::InvalidBlockState),
            r == Err::<(), FsError>(FsError::TooManyBlocks) && old(self).reliable() ==> spans_too_many_blocks(
                old(self).disk(),
                dir_inode_index as int,
            ) || exists|s: Seq<(Seq<char>, usize)>|
                #[trigger] is_listing(s, dir_entries@) && encode_listing(s).len() > 5120,
            r == Err::<(), FsError>(FsError::NoFreeBlock) && old(self).reliable() && dir_inode_index < 512 && fs_wf(old(self).disk())
                ==> exists|s: Seq<(Seq<char>, usize)>|
                #[trigger] is_listing(s, dir_entries@) && free_for_inode(old(self).disk(), dir_inode_index as int)
                    < block_count(encode_listing(s).len() as int),
            old(self).sound() && dir_inode_index < 512 && fs_wf(old(self).disk()) && (inode_at(
                old(self).disk(),
                dir_inode_index as int,
            ) matches Some(v) && v.kind == InodeType::Dir) && listing_fits(
                dir_entries@,
                old(self).disk(),
                dir_inode_index as int,
            ) ==> r is Ok,
            old(self).sound() && dir_inode_index < 512 && (inode_at(old(self).disk(), dir_inode_index as int) matches Some(
                v,
            ) && v.kind == InodeType::Dir) && (exists|s: Seq<(Seq<char>, usize)>|
                #[trigger] is_listing(s, dir_entries@) && encode_listing(s).len() > 5120) ==> r == Err::<(), FsError>(
                FsError::TooManyBlocks,
            ),
            old(self).sound() && dir_inode_index < 512 && fs_wf(old(self).disk()) && (inode_at(
                old(self).disk(),
                dir_inode_index as int,
            ) matches Some(v) && v.kind == InodeType::Dir) && (exists|s: Seq<(Seq<char>, usize)>|
                #[trigger] is_listing(s, dir_entries@) && encode_listing(s).len() <= 5120 && free_for_inode(
                    old(self).disk(),
                    dir_inode_index as int,
                ) < block_count(encode_listing(s).len() as int)) ==> r == Err::<(), FsError>(FsError::NoFreeBlock),
            r == Err::<(), FsError>(FsError::NotADirectory) && old(self).reliable() ==> not_a_dir(
                old(self).disk(),
                dir_inode_index as int,
            ),
            old(self).reliable() && not_a_dir(old(self).disk(), dir_inode_index as int) ==> r is Err,
            r is Ok || is_io_error(r) || r == Err::<(), FsError>(FsError::CorruptInode) || r == Err::<
                (),
                FsError,
            >(FsError::NotADirectory) || r == Err::<(), FsError>(FsError::TooManyBlocks) || r == Err::<
                (),
                FsError,
            >(FsError::NoFreeBlock) || r == Err::<(), FsError>(FsError::InvalidBlockState),
            old(self).reliable() && inode_at(old(self).disk(), dir_inode_index as int) is None ==> r is Err,
            r is Ok && old(self).reliable() ==> {
                &&& inode_at(old(self).disk(), dir_inode_index as int) matches Some(v)
                &&& v.kind == InodeType::Dir
                &&& inode_at(final(self).disk(), dir_inode_index as int) matches Some(w)
                &&& w.kind == InodeType::Dir
                &&& dir_inode_index < 512 ==> exists|s: Seq<(Seq<char>, usize)>|
                    is_listing(s, dir_entries@) && content_of(final(self).disk(), w) == encode_listing(s)
            },
            r is Ok && old(self).reliable() ==> forall|j: int|
                0 <= j < 512 && j != dir_inode_index ==> #[trigger] inode_at(final(self).disk(), j)
                    == inode_at(old(self).disk(), j),
            r is Ok && old(self).reliable() && dir_inode_index < 512 && (forall|k: Seq<char>|
                #[trigger] dir_entries@.contains_key(k) ==> plain_name(k)) ==> dir_entries_at(
                final(self).disk(),
                dir_inode_index as int,
            ) == Ok::<Map<Seq<char>, usize>, FsError>(dir_entries@),
            r is Ok && old(self).reliable() && dir_inode_index < 512 && fs_wf(old(self).disk()) ==> free_blocks(final(self).disk()) + 10
                >= free_for_inode(old(self).disk(), dir_inode_index as int),
            r is Ok && old(self).reliable() && dir_inode_index < 512 && fs_wf(old(self).disk()) ==> {
                &&& fs_wf(final(self).disk())
                &&& forall|j: int|
                    0 <= j < 512 && j != dir_inode_index ==> #[trigger] inode_at(final(self).disk(), j)
                        == inode_at(old(self).disk(), j) && content_of(
                        final(self).disk(),
                        inode_at(old(self).disk(), j)->0,
                    ) == content_of(old(self).disk(), inode_at(old(self).disk(), j)->0)
            },
    {
        let inode = self.get_inode(dir_inode_index)?;
        match inode.inode_type {
            InodeType::Dir => {},
            _ => return Err(FsError::NotADirectory),
        }
        let dir_raw_content = encode_dir_entries(dir_entries);
        let ghost raw = dir_raw_content@;
        let ghost s0 = choose|s: Seq<(Seq<char>, usize)>| is_listing(s, dir_entries@) && raw == encode_listing(s);
        if dir_raw_content.len() > BLOCKS_IN_INODE * BLOCK_SIZE {
            proof {
                assert(is_listing(s0, dir_entries@) && encode_listing(s0).len() > 5120);
                assert forall|s: Seq<(Seq<char>, usize)>| #[trigger] is_listing(s, dir_entries@) implies encode_listing(
                    s,
                ).len() > 5120 by {
                    listing_length_is_order_free(s, s0, dir_entries@);
                }
            }
            return Err(FsError::TooManyBlocks);
        }
        proof {
            if exists|s: Seq<(Seq<char>, usize)>| #[trigger] is_listing(s, dir_entries@) && encode_listing(s).len() > 5120 {
                let s = choose|s: Seq<(Seq<char>, usize)>| #[trigger] is_listing(s, dir_entries@) && encode_listing(s).len() > 5120;
                listing_length_is_order_free(s, s0, dir_entries@);
            }
            if exists|s: Seq<(Seq<char>, usize)>| #[trigger] is_listing(s, dir_entries@) && encode_listing(s).len() <= 5120
                && free_for_inode(old(self).disk(), dir_inode_index as int) < block_count(encode_listing(s).len() as int) {
                let s = choose|s: Seq<(Seq<char>, usize)>| #[trigger] is_listing(s, dir_entries@) && encode_listing(s).len() <= 5120
                    && free_for_inode(old(self).disk(), dir_inode_index as int) < block_count(encode_listing(s).len() as int);
                listing_length_is_order_free(s, s0, dir_entries@);
                assert(free_for_inode(old(self).disk(), dir_inode_index as int) < block_count(raw.len() as int));
            }
        }
        let ghost d = self.disk();
        let r = self.set_content_by_inode_index(dir_inode_index, dir_raw_content);
        proof {
            assert(is_listing(s0, dir_entries@));
            if r == Err::<(), FsError>(FsError::NoFreeBlock) && self.reliable() && dir_inode_index < 512 && fs_wf(d) {
                assert(free_for_inode(d, dir_inode_index as int) < block_count(encode_listing(s0).len() as int));
            }
            if r is Ok && self.reliable() && dir_inode_index < 512 {
                let w = inode_at(self.disk(), dir_inode_index as int)->0;
                let s = choose|s: Seq<(Seq<char>, usize)>| is_listing(s, dir_entries@) && raw == encode_listing(s);
                assert(content_of(self.disk(), w) == encode_listing(s));
                assert(block_count(w.length as int) <= 10) by (nonlinear_arith)
                    requires w.length <= 5120;
                assert(block_count(raw.len() as int) <= 10);
                if forall|k: Seq<char>| #[trigger] dir_entries@.contains_key(k) ==> plain_name(k) {
                    dir_encoding_round_trip(s, dir_entries@);
                }
            }
        }
        r
    }

    /// Adds an entry called `entry_name` to the directory at
    /// `index_of_dir_inode`, pointing at the lowest free inode, which becomes
    /// a directory or a file; nothing changes when the name is taken.
    pub fn create_dir_entry(&mut self, entry_name: &str, is_dir: bool, index_of_dir_inode: usize) -> (r: Result<CreateOutcome, FsError>)
        requires
            index_of_dir_inode * 96 + 96 <= usize::MAX,
        ensures
            final(self).disk().len() == old(self).disk().len(),
            final(self).reliable() == old(self).reliable(),
            old(self).sound() && index_of_dir_inode < 512 && fs_wf(old(self).disk()) ==> !is_io_error(r),
            old(self).reliable() && index_of_dir_inode < 512 && fs_wf(old(self).disk()) ==> r != Err::<CreateOutcome, FsError>(
                FsError::InvalidBlockState,
            ),
            r matches Err(e) ==> is_io_error(r) || !old(self).reliable() || dir_entries_at(old(self).disk(), index_of_dir_inode as int)
                == Err::<Map<Seq<char>, usize>, FsError>(e) || (dir_entries_at(
                old(self).disk(),
                index_of_dir_inode as int,
            ) matches Ok(m) && !m.contains_key(entry_name@) && ((e == FsError::NoFreeInode && forall|j: int|
                0 <= j < 512 ==> #[trigger] inode_in_use(old(self).disk(), j)) || (e == FsError::CorruptInode
                && exists|j: int| 0 <= j < 512 && #[trigger] inode_at(old(self).disk(), j) is None) || e
                == FsError::TooManyBlocks || e == FsError::NoFreeBlock || e == FsError::InvalidBlockState)),
            r == Ok::<CreateOutcome, FsError>(CreateOutcome::AlreadyExists) ==> final(self).disk() == old(self).disk(),
            r == Ok::<CreateOutcome, FsError>(CreateOutcome::AlreadyExists) && old(self).reliable() ==> {
                &&& dir_entries_at(old(self).disk(), index_of_dir_inode as int) matches Ok(m)
                &&& m.contains_key(entry_name@)
            },
            r matches Ok(CreateOutcome::Created(i)) ==> i < 512,
            r matches Ok(CreateOutcome::Created(i)) ==> (old(self).reliable() ==> {
                &&& dir_entries_at(old(self).disk(), index_of_dir_inode as int) matches Ok(m)
                &&& !m.contains_key(entry_name@)
                &&& i < 512
                &&& inode_at(old(self).disk(), i as int) matches Some(v)
                &&& v.kind == InodeType::Free
                &&& forall|j: int| 0 <= j < i ==> #[trigger] inode_in_use(old(self).disk(), j)
                &&& inode_at(final(self).disk(), i as int) == Some(
                    InodeView {
                        kind: if is_dir {
                            InodeType::Dir
                        } else {
                            InodeType::File
                        },
                        ..v
                    },
                )
                &&& (index_of_dir_inode < 512 && (forall|k: Seq<char>|
                    #[trigger] m.contains_key(k) ==> plain_name(k)) && plain_name(entry_name@))
                    ==> dir_entries_at(final(self).disk(), index_of_dir_inode as int) == Ok::<
                    Map<Seq<char>, usize>,
                    FsError,
                >(m.insert(entry_name@, i))
            }),
            r is Ok && old(self).reliable() && index_of_dir_inode < 512 && fs_wf(old(self).disk()) ==> fs_wf(
                final(self).disk(),
            ),
            r matches Ok(CreateOutcome::Created(_)) && old(self).reliable() && index_of_dir_inode < 512 && fs_wf(old(self).disk())
                ==> free_blocks(final(self).disk()) + 10 >= free_for_inode(old(self).disk(), index_of_dir_inode as int),
            (r == Err::<CreateOutcome, FsError>(FsError::TooManyBlocks) || r == Err::<CreateOutcome, FsError>(
                FsError::NoFreeBlock,
            )) && old(self).reliable() && index_of_dir_inode < 512 && fs_wf(old(self).disk()) ==> exists|x: usize|
                !#[trigger] listing_fits(
                    dir_entries_at(old(self).disk(), index_of_dir_inode as int)->Ok_0.insert(entry_name@, x),
                    old(self).disk(),
                    index_of_dir_inode as int,
                ),
            old(self).sound() && index_of_dir_inode < 512 && fs_wf(old(self).disk()) && (dir_entries_at(
                old(self).disk(),
                index_of_dir_inode as int,
            ) matches Ok(m) && !m.contains_key(entry_name@)) && (exists|j: int|
                0 <= j < 512 && !#[trigger] inode_in_use(old(self).disk(), j)) && (forall|x: usize|
                #[trigger] listing_fits(
                    dir_entries_at(old(self).disk(), index_of_dir_inode as int)->Ok_0.insert(entry_name@, x),
                    old(self).disk(),
                    index_of_dir_inode as int,
                )) ==> r matches Ok(CreateOutcome::Created(_)),
            r matches Ok(CreateOutcome::Created(i)) ==> (old(self).reliable() && index_of_dir_inode < 512 && fs_wf(old(self).disk())
                ==> forall|j: int|
                0 <= j < 512 && j != index_of_dir_inode && j != i ==> #[trigger] inode_at(final(self).disk(), j)
                    == inode_at(old(self).disk(), j) && content_of(
                    final(self).disk(),
                    inode_at(old(self).disk(), j)->0,
                ) == content_of(old(self).disk(), inode_at(old(self).disk(), j)->0)),
    {
        let ghost d0 = self.disk();
        let mut dir_entries = self.get_entries_from_dir(index_of_dir_inode)?;
        if dir_entries.contains_key(entry_name) {
            return Ok(CreateOutcome::AlreadyExists);
        }
        let new_inode_index = self.get_first_free_inode_index()?;
        let mut new_inode = self.get_inode(new_inode_index)?;
        let ghost v = new_inode@;
        new_inode.inode_type = if is_dir {
            InodeType::Dir
        } else {
            InodeType::File
        };
        let ghost w = new_inode@;
        self.set_inode(new_inode, new_inode_index)?;
        let ghost d1 = self.disk();
        proof {
            if self.reliable() {
            inode_encoding_round_trip(w);
            assert(d1.subrange(new_inode_index * 96, new_inode_index * 96 + 96) =~= encode_inode(w));
            assert(w == (InodeView { kind: w.kind, ..v }));
            assert(index_of_dir_inode != new_inode_index);
            assert forall|p: int| 0 <= p < d0.len() && index_of_dir_inode * 96 <= p < index_of_dir_inode * 96 + 96 implies d1[p] == d0[p] by {}
            lemma_inode_frame(d1, d0, index_of_dir_inode as int);
            if fs_wf(d0) && index_of_dir_inode < 512 {
                lemma_retype_keeps_wf(d0, d1, new_inode_index as int, v, w);
            }
            }
        }
        let ghost mm = dir_entries@;
        let entry_name_owned = entry_name.to_owned();
        dir_entries.insert(entry_name_owned, new_inode_index);
        proof {
            if self.reliable() && fs_wf(d0) && index_of_dir_inode < 512 {
                let b = index_of_dir_inode as int;
                let vb = inode_at(d0, b)->0;
                assert forall|c: int| 0 <= c < 1024 implies free_once_released(d1, vb.blocks, block_count(vb.length as int), c)
                    == free_once_released(d0, vb.blocks, block_count(vb.length as int), c) by {
                    assert(d1[state_offset(c)] == d0[state_offset(c)]);
                }
                lemma_count_free_ext(
                    d1,
                    vb.blocks,
                    block_count(vb.length as int),
                    d0,
                    vb.blocks,
                    block_count(vb.length as int),
                    1024,
                );
                assert(free_for_inode(d1, b) == free_for_inode(d0, b));
                assert(listing_fits(mm.insert(entry_name@, new_inode_index), d1, b) == listing_fits(
                    mm.insert(entry_name@, new_inode_index),
                    d0,
                    b,
                ));
            }
        }
        match self.set_files_to_dir(&dir_entries, index_of_dir_inode) {
            Ok(()) => {},
            Err(e) => {
                proof {
                    if (e == FsError::TooManyBlocks || e == FsError::NoFreeBlock) && self.reliable() && fs_wf(d0) && index_of_dir_inode < 512 {
                        let b = index_of_dir_inode as int;
                        assert(!spans_too_many_blocks(d1, b));
                        assert(!listing_fits(mm.insert(entry_name@, new_inode_index), d1, b));
                        assert(!listing_fits(mm.insert(entry_name@, new_inode_index), d0, b));
                        assert(dir_entries_at(d0, b)->Ok_0 == mm);
                        assert(!listing_fits(dir_entries_at(d0, b)->Ok_0.insert(entry_name@, new_inode_index), d0, b));
                    }
                }
                return Err(e);
            },
        }
        proof {
            let d2 = self.disk();
            if self.reliable() {
                assert(inode_at(d2, new_inode_index as int) == inode_at(d1, new_inode_index as int));
            }
            if self.reliable() && fs_wf(d0) && index_of_dir_inode < 512 {
                assert forall|j: int|
                    0 <= j < 512 && j != index_of_dir_inode && j != new_inode_index implies #[trigger] inode_at(d2, j)
                        == inode_at(d0, j) && content_of(d2, inode_at(d0, j)->0) == content_of(d0, inode_at(d0, j)->0) by {
                    assert(inode_at(d1, j) == inode_at(d0, j));
                    assert(inode_at(d2, j) == inode_at(d1, j));
                }
            }
        }
        Ok(CreateOutcome::Created(new_inode_index))
    }

    // ----- paths -----

    /// The inode that `path` names, looked up from the directory at
    /// `inode_index`.
    pub fn get_inode_index_from_path(&mut self, path: &str, inode_index: usize) -> (r: Result<usize, FsError>)
        ensures
            final(self).disk() == old(self).disk(),
            final(self).reliable() == old(self).reliable(),
            old(self).sound() && inode_index < 512 && fs_wf(old(self).disk()) && entries_in_table(old(self).disk())
                ==> !is_io_error(r),
            r matches Ok(i) ==> (old(self).reliable() ==> resolve(old(self).disk(), path@, inode_index as int)
                == Ok::<usize, FsError>(i)),
            r matches Err(e) ==> is_io_error(r) || !old(self).reliable() || resolve(old(self).disk(), path@, inode_index as int)
                == Err::<usize, FsError>(e),
        decreases path@.len(),
    {
        let len = path.unicode_len();
        if len == 0 {
            return Err(FsError::EmptyPath);
        }
        if len == 1 && path.get_char(0) == '/' {
            proof {
                assert(path@ =~= seq!['/']);
            }
            return Ok(0);
        }
        proof {
            if path@ == seq!['/'] {
                assert(path@[0] == '/');
            }
        }
        let mut k: usize = 0;
        while k < len && path.get_char(k) != '/'
            invariant
                k <= len,
                len == path@.len(),
                slash_from(path@, 0) == slash_from(path@, k as int),
            decreases len - k,
        {
            k += 1;
        }
        if k == 0 {
            return Err(FsError::EndlessPath);
        }
        let before_sep = if k < len { path.substring_char(0, k) } else { path };
        let after_sep = if k < len { path.substring_char(k + 1, len) } else { path.substring_char(len, len) };
        proof {
            if k == len {
                assert(slash_from(path@, k as int) is None);
                assert(after_sep@ =~= Seq::<char>::empty());
            } else {
                assert(path@.take(k as int) =~= before_sep@);
                assert(path@.skip(k + 1) =~= after_sep@);
            }
        }
        if inode_index > (usize::MAX - INODE_SIZE) / INODE_SIZE {
            return Err(FsError::Io(IoError::Overflow));
        }
        proof {
            assert(inode_index * 96 + 96 <= usize::MAX) by (nonlinear_arith)
                requires inode_index <= (usize::MAX - 96) / 96;
        }
        let dir_entries = self.get_entries_from_dir(inode_index)?;
        let entry_inode_index = match dir_entries.get(before_sep) {
            None => return Err(FsError::UnknownEntry),
            Some(i) => i,
        };
        if after_sep.unicode_len() == 0 {
            return Ok(entry_inode_index);
        }
        proof {
            if self.reliable() && entries_in_table(self.disk()) && inode_index < 512 {
                assert(points_into_table(dir_entries_at(self.disk(), inode_index as int)));
                assert(dir_entries@.contains_key(before_sep@));
            }
        }
        self.get_inode_index_from_path(after_sep, entry_inode_index)
    }

    /// The type of the inode `path` names from the root; free when the path
    /// is empty or one of its names is not in its directory.
    pub fn get_type_by_path(&mut self, path: &str) -> (r: Result<InodeType, FsError>)
        ensures
            final(self).disk() == old(self).disk(),
            final(self).reliable() == old(self).reliable(),
            old(self).sound() && fs_wf(old(self).disk()) && entries_in_table(old(self).disk()) ==> !is_io_error(r),
            r matches Ok(t) ==> (old(self).reliable() ==> type_at_path(old(self).disk(), path@) == Ok::<
                InodeType,
                FsError,
            >(t)),
            r matches Err(e) ==> is_io_error(r) || !old(self).reliable() || type_at_path(old(self).disk(), path@) == Err::<
                InodeType,
                FsError,
            >(e),
    {
        match self.get_inode_index_from_path(path, 0) {
            Ok(inode_index) => {
                proof {
                    if entries_in_table(self.disk()) {
                        lemma_resolve_in_table(self.disk(), path@, 0);
                    }
                }
                if inode_index > (usize::MAX - INODE_SIZE) / INODE_SIZE {
                    return Err(FsError::Io(IoError::Overflow));
                }
                proof {
                    assert(inode_index * 96 + 96 <= usize::MAX) by (nonlinear_arith)
                        requires inode_index <= (usize::MAX - 96) / 96;
                }
                let inode = self.get_inode(inode_index)?;
                Ok(inode.inode_type)
            },
            Err(FsError::EmptyPath) => Ok(InodeType::Free),
            Err(FsError::UnknownEntry) => Ok(InodeType::Free),
            Err(e) => Err(e),
        }
    }

    /// Splits `path` at its last `/` into the directory part and the entry
    /// name; a path without `/` is an entry of the root, `/`.
    pub fn path_to_base_dir_and_entry<'a>(&self, path: &'a str) -> (r: (&'a str, &'a str))
        ensures
            match slash_before(path@, path@.len() as int) {
                None => r.0@ == seq!['/'] && r.1@ == path@,
                Some(k) => {
                    &&& r.0@ == path@.take(k)
                    &&& r.1@ == path@.skip(k + 1)
                    &&& r.0@ + seq!['/'] + r.1@ == path@
                },
            },
    {
        let len = path.unicode_len();
        let mut k: usize = len;
        while k > 0 && path.get_char(k - 1) != '/'
            invariant
                k <= len,
                len == path@.len(),
                slash_before(path@, len as int) == slash_before(path@, k as int),
            decreases k,
        {
            k -= 1;
        }
        if k == 0 {
            let root = "/";
            proof {
                reveal_strlit("/");
            }
            return (root, path);
        }
        let base = path.substring_char(0, k - 1);
        let entry = path.substring_char(k, len);
        proof {
            assert(base@ + seq!['/'] + entry@ =~= path@);
        }
        (base, entry)
    }
}

} // verus!
