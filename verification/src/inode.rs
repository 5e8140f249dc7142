//! Inodes and their on-disk form: twelve little-endian 64-bit words, the
//! type tag, the content length and the ten block indexes.
use vstd::prelude::*;
use vstd::bytes::{spec_u64_to_le_bytes, spec_u64_from_le_bytes, u64_to_le_bytes, u64_from_le_bytes,
    lemma_auto_spec_u64_to_from_le_bytes};
use vstd::slice::slice_subrange;

verus! {

/// Blocks one inode can point at.
pub const BLOCKS_IN_INODE: usize = 10;

/// Bytes of one inode on disk.
pub const INODE_SIZE: usize = 96;

#[derive(PartialEq, Eq, Structural, Clone, Copy, Debug)]
pub enum InodeType {
    Free,
    File,
    Dir,
}

/// A file or directory: its type, the length of its content and the blocks
/// that hold it, in order.
pub struct Inode {
    pub inode_type: InodeType,
    pub content_length: usize,
    pub blocks_indexes: [usize; BLOCKS_IN_INODE],
}

/// An inode as a mathematical value.
pub struct InodeView {
    pub kind: InodeType,
    pub length: usize,
    pub blocks: Seq<usize>,
}

impl View for Inode {
    type V = InodeView;

    open spec fn view(&self) -> InodeView {
        InodeView { kind: self.inode_type, length: self.content_length, blocks: self.blocks_indexes@ }
    }
}

/// The tag a type is stored as.
pub open spec fn type_tag(t: InodeType) -> u64 {
    match t {
        InodeType::Free => 0,
        InodeType::File => 1,
        InodeType::Dir => 2,
    }
}

/// The type a tag stands for.
pub open spec fn tag_type(tag: u64) -> Option<InodeType> {
    if tag == 0 {
        Some(InodeType::Free)
    } else if tag == 1 {
        Some(InodeType::File)
    } else if tag == 2 {
        Some(InodeType::Dir)
    } else {
        None
    }
}

/// The twelve words an inode is stored as.
pub open spec fn inode_words(v: InodeView) -> Seq<u64> {
    Seq::new(
        12,
        |k: int|
            if k == 0 {
                type_tag(v.kind)
            } else if k == 1 {
                v.length as u64
            } else {
                v.blocks[k - 2] as u64
            },
    )
}

/// Words laid out as consecutive little-endian 8-byte groups.
pub open spec fn encode_words(w: Seq<u64>) -> Seq<u8> {
    Seq::new(8 * w.len(), |j: int| spec_u64_to_le_bytes(w[j / 8])[j % 8])
}

/// The `k`-th little-endian word of `bytes`.
pub open spec fn word_at(bytes: Seq<u8>, k: int) -> u64 {
    spec_u64_from_le_bytes(bytes.subrange(8 * k, 8 * k + 8))
}

/// The bytes an inode is stored as.
pub open spec fn encode_inode(v: InodeView) -> Seq<u8> {
    encode_words(inode_words(v))
}

/// The inode that 96 bytes hold, if they hold one: a known tag, and a
/// length and block indexes that fit in a `usize`.
pub open spec fn decode_inode(bytes: Seq<u8>) -> Option<InodeView> {
    if bytes.len() == 96 && tag_type(word_at(bytes, 0)) is Some && word_at(bytes, 1) <= usize::MAX
        && (forall|k: int| 2 <= k < 12 ==> word_at(bytes, k) <= usize::MAX) {
        Some(
            InodeView {
                kind: tag_type(word_at(bytes, 0))->0,
                length: word_at(bytes, 1) as usize,
                blocks: Seq::new(10, |k: int| word_at(bytes, k + 2) as usize),
            },
        )
    } else {
        None
    }
}

proof fn lemma_word_at_encode(w: Seq<u64>, k: int)
    requires
        0 <= k < w.len(),
    ensures
        word_at(encode_words(w), k) == w[k],
{
    lemma_auto_spec_u64_to_from_le_bytes();
    let e = encode_words(w);
    assert(e.subrange(8 * k, 8 * k + 8) =~= spec_u64_to_le_bytes(w[k])) by {
        assert forall|j: int| 0 <= j < 8 implies #[trigger] e.subrange(8 * k, 8 * k + 8)[j]
            == spec_u64_to_le_bytes(w[k])[j] by {
            assert((8 * k + j) / 8 == k) by (nonlinear_arith)
                requires 0 <= j < 8;
            assert((8 * k + j) % 8 == j) by (nonlinear_arith)
                requires 0 <= j < 8;
        }
    }
}

/// Decoding what an inode was encoded to gives it back.
pub proof fn inode_encoding_round_trip(v: InodeView)
    requires
        v.blocks.len() == 10,
    ensures
        encode_inode(v).len() == 96,
        decode_inode(encode_inode(v)) == Some(v),
{
    let w = inode_words(v);
    let e = encode_inode(v);
    assert forall|k: int| 0 <= k < 12 implies word_at(e, k) == #[trigger] w[k] by {
        lemma_word_at_encode(w, k);
    }
    assert(word_at(e, 0) == w[0]);
    assert(word_at(e, 1) == w[1]);
    assert(tag_type(type_tag(v.kind)) == Some(v.kind));
    assert forall|k: int| 2 <= k < 12 implies word_at(e, k) <= usize::MAX by {
        assert(w[k] == v.blocks[k - 2] as u64);
    }
    let d = decode_inode(e)->0;
    assert(d.blocks =~= v.blocks) by {
        assert forall|k: int| 0 <= k < 10 implies d.blocks[k] == v.blocks[k] by {
            assert(w[k + 2] == v.blocks[k] as u64);
        }
    }
}

/// Appends the little-endian bytes of `x`.
pub(crate) fn push_word(out: &mut Vec<u8>, x: u64)
    ensures
        final(out)@ == old(out)@ + spec_u64_to_le_bytes(x),
{
    proof {
        lemma_auto_spec_u64_to_from_le_bytes();
    }
    let mut bytes = u64_to_le_bytes(x);
    out.append(&mut bytes);
}

impl Inode {
    /// An inode of type `inode_type` with no content and all block indexes 0.
    pub fn empty(inode_type: InodeType) -> (inode: Inode)
        ensures
            inode@.kind == inode_type,
            inode@.length == 0,
            inode@.blocks == Seq::new(10, |k: int| 0usize),
    {
        let inode = Inode { inode_type, content_length: 0, blocks_indexes: [0usize; 10] };
        proof {
            assert(inode@.blocks =~= Seq::new(10, |k: int| 0usize));
        }
        inode
    }

    /// The bytes this inode is stored as.
    pub fn to_bytes(&self) -> (bytes: Vec<u8>)
        ensures
            bytes@ == encode_inode(self@),
            bytes@.len() == INODE_SIZE,
    {
        let ghost w = inode_words(self@);
        let mut out: Vec<u8> = Vec::new();
        let tag: u64 = match self.inode_type {
            InodeType::Free => 0,
            InodeType::File => 1,
            InodeType::Dir => 2,
        };
        push_word(&mut out, tag);
        push_word(&mut out, self.content_length as u64);
        proof {
            assert(encode_words(Seq::<u64>::empty()) =~= Seq::<u8>::empty());
            lemma_encode_words_push(Seq::<u64>::empty(), w[0]);
            assert(Seq::<u64>::empty().push(w[0]) =~= w.subrange(0, 1));
            lemma_encode_words_push(w.subrange(0, 1), w[1]);
            assert(w.subrange(0, 1).push(w[1]) =~= w.subrange(0, 2));
        }
        let mut k: usize = 0;
        while k < BLOCKS_IN_INODE
            invariant
                k <= 10,
                self.blocks_indexes@.len() == 10,
                w == inode_words(self@),
                out@ == encode_words(w.subrange(0, k + 2)),
            decreases 10 - k,
        {
            let ghost before = out@;
            push_word(&mut out, self.blocks_indexes[k] as u64);
            proof {
                lemma_encode_words_push(w.subrange(0, k + 2), w[k + 2]);
                assert(w.subrange(0, k + 3) =~= w.subrange(0, k + 2).push(w[k + 2]));
            }
            k += 1;
        }
        proof {
            assert(w.subrange(0, 12) =~= w);
        }
        out
    }

    /// The inode that `bytes` hold, or `None` when they hold none.
    pub fn from_bytes(bytes: &Vec<u8>) -> (r: Option<Inode>)
        requires
            bytes@.len() == INODE_SIZE,
        ensures
            match r {
                Some(inode) => decode_inode(bytes@) == Some(inode@),
                None => decode_inode(bytes@) is None,
            },
    {
        let tag = u64_from_le_bytes(slice_subrange(bytes.as_slice(), 0, 8));
        let length = u64_from_le_bytes(slice_subrange(bytes.as_slice(), 8, 16));
        let inode_type = if tag == 0 {
            InodeType::Free
        } else if tag == 1 {
            InodeType::File
        } else if tag == 2 {
            InodeType::Dir
        } else {
            return None;
        };
        if length > usize::MAX as u64 {
            return None;
        }
        let mut blocks_indexes = [0usize; 10];
        let mut k: usize = 0;
        while k < BLOCKS_IN_INODE
            invariant
                k <= 10,
                bytes@.len() == 96,
                blocks_indexes@.len() == 10,
                forall|j: int| 0 <= j < k ==> #[trigger] blocks_indexes@[j] == word_at(bytes@, j + 2),
            decreases 10 - k,
        {
            let word = u64_from_le_bytes(slice_subrange(bytes.as_slice(), 8 * k + 16, 8 * k + 24));
            proof {
                assert(bytes@.subrange(8 * k + 16, 8 * k + 24) =~= bytes@.subrange(
                    8 * (k + 2),
                    8 * (k + 2) + 8,
                ));
            }
            if word > usize::MAX as u64 {
                proof {
                    assert(word_at(bytes@, k + 2) == word);
                    assert(!(forall|j: int| 2 <= j < 12 ==> word_at(bytes@, j) <= usize::MAX));
                }
                return None;
            }
            blocks_indexes[k] = word as usize;
            k += 1;
        }
        let inode = Inode { inode_type, content_length: length as usize, blocks_indexes };
        proof {
            assert(bytes@.subrange(0, 8) =~= bytes@.subrange(8 * 0int, 8 * 0int + 8));
            assert(bytes@.subrange(8, 16) =~= bytes@.subrange(8 * 1int, 8 * 1int + 8));
            assert forall|j: int| 2 <= j < 12 implies word_at(bytes@, j) <= usize::MAX by {
                assert(blocks_indexes@[j - 2] == word_at(bytes@, (j - 2) + 2));
            }
            assert(decode_inode(bytes@)->0.blocks =~= inode@.blocks);
        }
        Some(inode)
    }
}

proof fn lemma_encode_words_push(w: Seq<u64>, x: u64)
    ensures
        encode_words(w.push(x)) == encode_words(w) + spec_u64_to_le_bytes(x),
{
    lemma_auto_spec_u64_to_from_le_bytes();
    let a = encode_words(w.push(x));
    let b = encode_words(w) + spec_u64_to_le_bytes(x);
    assert forall|j: int| 0 <= j < a.len() implies #[trigger] a[j] == b[j] by {
        if j < 8 * w.len() {
            assert(j / 8 < w.len()) by (nonlinear_arith)
                requires 0 <= j < 8 * w.len();
        } else {
            assert(j / 8 == w.len()) by (nonlinear_arith)
                requires 8 * w.len() <= j < 8 * w.len() + 8;
            assert(j % 8 == j - 8 * w.len()) by (nonlinear_arith)
                requires 8 * w.len() <= j < 8 * w.len() + 8;
        }
    }
    assert(a =~= b);
}

} // verus!
