//! A directory's entries: a map from names to inode indexes, held in a
//! hashbrown map, and the byte form a directory's content stores it in:
//! each entry is its name's bytes, a NUL and the inode index as a
//! little-endian 64-bit word.
use vstd::prelude::*;
use vstd::utf8::{encode_utf8, is_ascii_chars, is_ascii_chars_encode_utf8};
use vstd::bytes::{spec_u64_to_le_bytes, spec_u64_from_le_bytes, u64_from_le_bytes,
    lemma_auto_spec_u64_to_from_le_bytes};
use vstd::slice::slice_subrange;
use crate::inode::push_word;

verus! {

/// The entries of a directory, held in a `hashbrown::HashMap` that Verus
/// does not see into; `dir_entries_contents` names what it holds, and the
/// wrappers below say how each map operation changes that.
#[verifier::external_body]
pub struct DirEntries {
    map: hashbrown::HashMap<String, usize>,
}

/// The names and inode indexes a directory's entries hold: the map's
/// contents, each name taken as its characters.
pub uninterp spec fn dir_entries_contents(entries: DirEntries) -> Map<Seq<char>, usize>;

impl View for DirEntries {
    type V = Map<Seq<char>, usize>;

    open spec fn view(&self) -> Map<Seq<char>, usize> {
        dir_entries_contents(*self)
    }
}

/// The entries of `v` as names and indexes.
pub open spec fn listing_view(v: Seq<(String, usize)>) -> Seq<(Seq<char>, usize)> {
    v.map_values(|e: (String, usize)| (e.0@, e.1))
}

/// Whether `s` lists the entries of `m`, each once, in some order.
pub open spec fn is_listing(s: Seq<(Seq<char>, usize)>, m: Map<Seq<char>, usize>) -> bool {
    &&& forall|i: int, j: int| 0 <= i < j < s.len() ==> #[trigger] s[i].0 != #[trigger] s[j].0
    &&& forall|i: int| 0 <= i < s.len() ==> #[trigger] m.contains_key(s[i].0) && m[s[i].0] == s[i].1
    &&& forall|k: Seq<char>| #[trigger] m.contains_key(k) ==> exists|i: int| 0 <= i < s.len() && #[trigger] s[i].0 == k
}

/// The map that inserting the entries of `s` in order into `acc` gives.
pub open spec fn insert_all(acc: Map<Seq<char>, usize>, s: Seq<(Seq<char>, usize)>) -> Map<Seq<char>, usize>
    decreases s.len(),
{
    if s.len() == 0 {
        acc
    } else {
        insert_all(acc, s.drop_last()).insert(s.last().0, s.last().1)
    }
}

/// The bytes one entry is stored as.
pub open spec fn encode_entry(name: Seq<char>, inode_index: usize) -> Seq<u8> {
    encode_utf8(name) + seq![0u8] + spec_u64_to_le_bytes(inode_index as u64)
}

/// The bytes the entries of `s` are stored as, in order.
pub open spec fn encode_listing(s: Seq<(Seq<char>, usize)>) -> Seq<u8>
    decreases s.len(),
{
    if s.len() == 0 {
        Seq::empty()
    } else {
        encode_listing(s.drop_last()) + encode_entry(s.last().0, s.last().1)
    }
}

/// The little-endian word of `bytes` at `i..i + 8`.
pub open spec fn word_from(bytes: Seq<u8>, i: int) -> u64 {
    spec_u64_from_le_bytes(bytes.subrange(i, i + 8))
}

/// Reads entries from byte `i` on, with `name` read so far and `acc`
/// collected so far: a byte other than NUL extends the name by the
/// character of that code; a NUL ends it and is followed by the inode index,
/// and a later entry of the same name replaces an earlier one. Bytes after
/// the last NUL that no index follows are ignored; an index cut short, or
/// one too large for a `usize`, leaves no map.
pub open spec fn parse_dir(bytes: Seq<u8>, i: int, name: Seq<char>, acc: Map<Seq<char>, usize>) -> Option<Map<Seq<char>, usize>>
    decreases bytes.len() - i,
{
    if i < 0 || i >= bytes.len() {
        Some(acc)
    } else if bytes[i] != 0 {
        parse_dir(bytes, i + 1, name.push(bytes[i] as char), acc)
    } else if i + 9 > bytes.len() {
        None
    } else if word_from(bytes, i + 1) > usize::MAX {
        None
    } else {
        parse_dir(bytes, i + 9, Seq::empty(), acc.insert(name, word_from(bytes, i + 1) as usize))
    }
}

/// The entries a directory's content holds, if it holds well-formed ones.
pub open spec fn decode_dir(bytes: Seq<u8>) -> Option<Map<Seq<char>, usize>> {
    parse_dir(bytes, 0, Seq::empty(), Map::empty())
}

/// Whether a name is ASCII and holds no NUL: such names are stored as their
/// character codes and read back unchanged.
pub open spec fn plain_name(name: Seq<char>) -> bool {
    forall|i: int| 0 <= i < name.len() ==> '\0' < #[trigger] name[i] <= '\u{7f}'
}

impl DirEntries {
    /// Calls `hashbrown::HashMap::new`; claims the new map holds no entry.
    #[verifier::external_body]
    fn wrap_new() -> (created: DirEntries)
        ensures
            dir_entries_contents(created) =~= Map::empty(),
    {
        DirEntries { map: hashbrown::HashMap::new() }
    }

    /// Calls `hashbrown::HashMap::contains_key`; claims it tells whether
    /// the map holds an entry whose name has the characters of `name`.
    #[verifier::external_body]
    fn wrap_contains_key(&self, name: &str) -> (b: bool)
        ensures
            b == dir_entries_contents(*self).contains_key(name@),
    {
        self.map.contains_key(name)
    }

    /// Calls `hashbrown::HashMap::get`; claims it gives the index of the
    /// entry named `name`, or nothing when there is none.
    #[verifier::external_body]
    fn wrap_get(&self, name: &str) -> (r: Option<usize>)
        ensures
            r == (if dir_entries_contents(*self).contains_key(name@) {
                Some(dir_entries_contents(*self)[name@])
            } else {
                None
            }),
    {
        self.map.get(name).copied()
    }

    /// Calls `hashbrown::HashMap::insert`; claims the map afterwards maps
    /// `name` to `inode_index` and is otherwise unchanged.
    #[verifier::external_body]
    fn wrap_insert(&mut self, name: String, inode_index: usize)
        ensures
            dir_entries_contents(*final(self)) == dir_entries_contents(*old(self)).insert(
                name@,
                inode_index,
            ),
    {
        self.map.insert(name, inode_index);
    }

    /// Calls `hashbrown::HashMap::remove`; claims the map afterwards lacks
    /// `name` and is otherwise unchanged.
    #[verifier::external_body]
    fn wrap_remove(&mut self, name: &str)
        ensures
            dir_entries_contents(*final(self)) == dir_entries_contents(*old(self)).remove(name@),
    {
        self.map.remove(name);
    }

    /// Walks the map with `hashbrown::HashMap::iter` and copies each entry;
    /// claims every entry comes out exactly once. The order is the map's
    /// and is left unsaid.
    #[verifier::external_body]
    fn wrap_iter(&self) -> (v: Vec<(String, usize)>)
        ensures
            is_listing(listing_view(v@), dir_entries_contents(*self)),
    {
        let mut out: Vec<(String, usize)> = Vec::new();
        for (name, inode_index) in self.map.iter() {
            out.push((name.clone(), *inode_index));
        }
        out
    }

    /// An empty directory.
    pub fn new() -> (e: DirEntries)
        ensures
            e@ == Map::<Seq<char>, usize>::empty(),
    {
        Self::wrap_new()
    }

    /// Whether an entry is called `name`.
    pub fn contains_key(&self, name: &str) -> (b: bool)
        ensures
            b == self@.contains_key(name@),
    {
        self.wrap_contains_key(name)
    }

    /// The inode of the entry called `name`, if there is one.
    pub fn get(&self, name: &str) -> (r: Option<usize>)
        ensures
            r == (if self@.contains_key(name@) {
                Some(self@[name@])
            } else {
                None
            }),
    {
        self.wrap_get(name)
    }

    /// Adds an entry, replacing one of the same name.
    pub fn insert(&mut self, name: String, inode_index: usize)
        ensures
            final(self)@ == old(self)@.insert(name@, inode_index),
    {
        self.wrap_insert(name, inode_index)
    }

    /// Removes the entry called `name`, if there is one.
    pub fn remove(&mut self, name: &str)
        ensures
            final(self)@ == old(self)@.remove(name@),
    {
        self.wrap_remove(name)
    }

    /// Every entry once, in the map's own order.
    pub fn entries(&self) -> (v: Vec<(String, usize)>)
        ensures
            is_listing(listing_view(v@), self@),
    {
        self.wrap_iter()
    }
}

/// Calls `String::push`; claims the string afterwards holds its old
/// characters followed by `c`.
#[verifier::external_body]
fn push_char(s: &mut String, c: char)
    ensures
        final(s)@ == old(s)@.push(c),
{
    s.push(c);
}

/// The character whose code is the byte `b`.
fn char_of_byte(b: u8) -> (c: char)
    ensures
        c == b as char,
{
    b as char
}

/// The entries of a directory's content, or `None` when an index is cut
/// short or does not fit in a `usize`.
pub fn decode_dir_entries(content: &Vec<u8>) -> (r: Option<DirEntries>)
    ensures
        match r {
            Some(e) => decode_dir(content@) == Some(e@),
            None => decode_dir(content@) is None,
        },
{
    let mut entries = DirEntries::new();
    let mut name = String::new();
    let mut i: usize = 0;
    while i < content.len()
        invariant
            i <= content@.len(),
            decode_dir(content@) == parse_dir(content@, i as int, name@, entries@),
        decreases content@.len() - i,
    {
        let curr_byte = content[i];
        if curr_byte != 0 {
            push_char(&mut name, char_of_byte(curr_byte));
            i += 1;
        } else {
            if content.len() - i < 9 {
                return None;
            }
            let word = u64_from_le_bytes(slice_subrange(content.as_slice(), i + 1, i + 9));
            if word > usize::MAX as u64 {
                return None;
            }
            entries.insert(name, word as usize);
            name = String::new();
            i += 9;
        }
    }
    Some(entries)
}

/// The bytes the entries are stored as, in the order the map hands them out.
pub fn encode_dir_entries(entries: &DirEntries) -> (bytes: Vec<u8>)
    ensures
        exists|s: Seq<(Seq<char>, usize)>| is_listing(s, entries@) && bytes@ == encode_listing(s),
{
    let list = entries.entries();
    let ghost s = listing_view(list@);
    let mut out: Vec<u8> = Vec::new();
    let mut k: usize = 0;
    while k < list.len()
        invariant
            k <= list@.len(),
            s == listing_view(list@),
            out@ == encode_listing(s.take(k as int)),
        decreases list@.len() - k,
    {
        let name_bytes = list[k].0.as_str().as_bytes();
        let ghost before = out@;
        let mut j: usize = 0;
        while j < name_bytes.len()
            invariant
                j <= name_bytes@.len(),
                out@ == before + name_bytes@.take(j as int),
            decreases name_bytes@.len() - j,
        {
            out.push(name_bytes[j]);
            proof {
                assert(name_bytes@.take(j + 1) =~= name_bytes@.take(j as int).push(name_bytes@[j as int]));
            }
            j += 1;
        }
        out.push(0u8);
        push_word(&mut out, list[k].1 as u64);
        proof {
            assert(name_bytes@.take(j as int) =~= name_bytes@);
            assert(s[k as int] == (list@[k as int].0@, list@[k as int].1));
            assert(s.take(k + 1).drop_last() =~= s.take(k as int));
            assert(out@ =~= encode_listing(s.take(k as int)) + encode_entry(s[k as int].0, s[k as int].1));
        }
        k += 1;
    }
    proof {
        assert(s.take(list@.len() as int) =~= s);
    }
    out
}

proof fn lemma_plain_char_byte(c: char)
    requires
        '\0' < c <= '\u{7f}',
    ensures
        (c as u8) != 0,
        ((c as u8) as char) == c,
{
}

proof fn lemma_parse_name(bytes: Seq<u8>, i: int, n: Seq<char>, k: int, acc: Map<Seq<char>, usize>)
    requires
        0 <= i,
        0 <= k <= n.len(),
        i + n.len() < bytes.len(),
        plain_name(n),
        forall|t: int| 0 <= t < n.len() ==> bytes[i + t] == #[trigger] n[t] as u8,
    ensures
        parse_dir(bytes, i + k, n.take(k), acc) == parse_dir(bytes, i + n.len(), n, acc),
    decreases n.len() - k,
{
    if k < n.len() {
        lemma_plain_char_byte(n[k]);
        assert(bytes[i + k] == n[k] as u8);
        assert(n.take(k).push(bytes[i + k] as char) =~= n.take(k + 1));
        lemma_parse_name(bytes, i, n, k + 1, acc);
    } else {
        assert(n.take(k) =~= n);
    }
}

proof fn lemma_parse_entry(bytes: Seq<u8>, i: int, n: Seq<char>, inode_index: usize, acc: Map<Seq<char>, usize>)
    requires
        0 <= i,
        plain_name(n),
        i + encode_entry(n, inode_index).len() <= bytes.len(),
        bytes.subrange(i, i + encode_entry(n, inode_index).len()) == encode_entry(n, inode_index),
    ensures
        encode_entry(n, inode_index).len() == n.len() + 9,
        parse_dir(bytes, i, Seq::empty(), acc) == parse_dir(
            bytes,
            i + n.len() + 9,
            Seq::empty(),
            acc.insert(n, inode_index),
        ),
{
    lemma_auto_spec_u64_to_from_le_bytes();
    assert(is_ascii_chars(n));
    is_ascii_chars_encode_utf8(n);
    let e = encode_entry(n, inode_index);
    let len = n.len() as int;
    assert(e.len() == len + 9);
    assert forall|t: int| 0 <= t < n.len() implies bytes[i + t] == #[trigger] n[t] as u8 by {
        assert(bytes.subrange(i, i + e.len())[t] == e[t]);
        assert(e[t] == encode_utf8(n)[t]);
    }
    lemma_parse_name(bytes, i, n, 0, acc);
    assert(n.take(0) =~= Seq::<char>::empty());
    assert(bytes[i + len] == 0) by {
        assert(bytes.subrange(i, i + e.len())[len] == e[len]);
    }
    assert(bytes.subrange(i + len + 1, i + len + 9) =~= spec_u64_to_le_bytes(inode_index as u64)) by {
        assert forall|t: int| 0 <= t < 8 implies #[trigger] bytes.subrange(i + len + 1, i + len + 9)[t]
            == spec_u64_to_le_bytes(inode_index as u64)[t] by {
            assert(bytes.subrange(i, i + e.len())[len + 1 + t] == e[len + 1 + t]);
        }
    }
    assert(word_from(bytes, i + len + 1) == inode_index as u64);
}

proof fn lemma_parse_listing(bytes: Seq<u8>, i: int, s: Seq<(Seq<char>, usize)>, acc: Map<Seq<char>, usize>)
    requires
        0 <= i,
        forall|t: int| 0 <= t < s.len() ==> plain_name(#[trigger] s[t].0),
        i + encode_listing(s).len() <= bytes.len(),
        bytes.subrange(i, i + encode_listing(s).len()) == encode_listing(s),
    ensures
        parse_dir(bytes, i, Seq::empty(), acc) == parse_dir(
            bytes,
            i + encode_listing(s).len(),
            Seq::empty(),
            insert_all(acc, s),
        ),
    decreases s.len(),
{
    if s.len() > 0 {
        let s2 = s.drop_last();
        let a = encode_listing(s2);
        let e = encode_entry(s.last().0, s.last().1);
        assert(encode_listing(s) == a + e);
        assert(forall|t: int| 0 <= t < s2.len() ==> #[trigger] s2[t] == s[t]);
        assert(bytes.subrange(i, i + a.len()) =~= a) by {
            assert forall|t: int| 0 <= t < a.len() implies bytes.subrange(i, i + a.len())[t] == a[t] by {
                assert(bytes.subrange(i, i + encode_listing(s).len())[t] == (a + e)[t]);
            }
        }
        lemma_parse_listing(bytes, i, s2, acc);
        assert(bytes.subrange(i + a.len(), i + a.len() + e.len()) =~= e) by {
            assert forall|t: int| 0 <= t < e.len() implies bytes.subrange(i + a.len(), i + a.len() + e.len())[t]
                == e[t] by {
                assert(bytes.subrange(i, i + encode_listing(s).len())[a.len() + t] == (a + e)[a.len() + t]);
            }
        }
        assert(plain_name(s[s.len() - 1].0));
        lemma_parse_entry(bytes, i + a.len(), s.last().0, s.last().1, insert_all(acc, s2));
    }
}

proof fn lemma_listing_map(s: Seq<(Seq<char>, usize)>, m: Map<Seq<char>, usize>)
    requires
        is_listing(s, m),
    ensures
        insert_all(Map::empty(), s) == m,
    decreases s.len(),
{
    if s.len() == 0 {
        assert forall|k: Seq<char>| !m.contains_key(k) by {
            if m.contains_key(k) {
                let i = choose|i: int| 0 <= i < s.len() && #[trigger] s[i].0 == k;
            }
        }
        assert(m =~= Map::empty());
    } else {
        let s2 = s.drop_last();
        let last = s.last();
        let m2 = m.remove(last.0);
        assert(forall|t: int| 0 <= t < s2.len() ==> #[trigger] s2[t] == s[t]);
        assert forall|i: int| 0 <= i < s2.len() implies #[trigger] m2.contains_key(s2[i].0) && m2[s2[i].0]
            == s2[i].1 by {
            assert(s[i].0 != s[s.len() - 1].0);
        }
        assert forall|k: Seq<char>| #[trigger] m2.contains_key(k) implies exists|i: int|
            0 <= i < s2.len() && #[trigger] s2[i].0 == k by {
            let i = choose|i: int| 0 <= i < s.len() && #[trigger] s[i].0 == k;
            assert(s2[i].0 == k);
        }
        assert forall|i: int, j: int| 0 <= i < j < s2.len() implies #[trigger] s2[i].0 != #[trigger] s2[j].0 by {
            assert(s[i].0 != s[j].0);
        }
        lemma_listing_map(s2, m2);
        assert(insert_all(Map::empty(), s) =~= m);
    }
}

/// Reading back the bytes a directory's entries were stored as gives the
/// same entries, whatever order they were stored in, when every name is
/// ASCII and holds no NUL.
pub proof fn dir_encoding_round_trip(s: Seq<(Seq<char>, usize)>, m: Map<Seq<char>, usize>)
    requires
        is_listing(s, m),
        forall|k: Seq<char>| #[trigger] m.contains_key(k) ==> plain_name(k),
    ensures
        decode_dir(encode_listing(s)) == Some(m),
{
    let b = encode_listing(s);
    assert forall|t: int| 0 <= t < s.len() implies plain_name(#[trigger] s[t].0) by {
        assert(m.contains_key(s[t].0));
    }
    assert(b.subrange(0, b.len() as int) =~= b);
    lemma_parse_listing(b, 0, s, Map::empty());
    lemma_listing_map(s, m);
}

/// The bytes the entries of `s` take when each name is stored one byte per
/// character: the name, a NUL and an eight-byte index.
pub open spec fn listing_weight(s: Seq<(Seq<char>, usize)>) -> int
    decreases s.len(),
{
    if s.len() == 0 {
        0
    } else {
        listing_weight(s.drop_last()) + s.last().0.len() + 9
    }
}

/// A listing of plain names is stored in exactly its weight of bytes.
pub(crate) proof fn lemma_listing_weight_encoded(s: Seq<(Seq<char>, usize)>)
    requires
        forall|k: int| 0 <= k < s.len() ==> plain_name(#[trigger] s[k].0),
    ensures
        encode_listing(s).len() == listing_weight(s),
    decreases s.len(),
{
    if s.len() > 0 {
        let t = s.drop_last();
        assert forall|k: int| 0 <= k < t.len() implies plain_name(#[trigger] t[k].0) by {
            assert(t[k] == s[k]);
        }
        lemma_listing_weight_encoded(t);
        let n = s.last().0;
        assert(plain_name(s[s.len() - 1].0));
        assert(is_ascii_chars(n));
        is_ascii_chars_encode_utf8(n);
        lemma_auto_spec_u64_to_from_le_bytes();
    }
}

/// Taking one entry out of a listing takes its share of the weight.
pub(crate) proof fn lemma_listing_weight_remove(s: Seq<(Seq<char>, usize)>, j: int)
    requires
        0 <= j < s.len(),
    ensures
        listing_weight(s) == listing_weight(s.remove(j)) + s[j].0.len() + 9,
    decreases s.len(),
{
    if j < s.len() - 1 {
        lemma_listing_weight_remove(s.drop_last(), j);
        assert(s.remove(j).drop_last() =~= s.drop_last().remove(j));
        assert(s.remove(j).last() == s.last());
    } else {
        assert(s.remove(j) =~= s.drop_last());
    }
}

/// Entries that the bytes from `i` on add to `acc`, with `name` read so
/// far, weigh no more than those bytes and `name` together: each name read
/// is followed by its NUL and its index.
pub(crate) proof fn lemma_parse_bounds_weight(
    bytes: Seq<u8>,
    i: int,
    name: Seq<char>,
    acc: Map<Seq<char>, usize>,
    s: Seq<(Seq<char>, usize)>,
)
    requires
        0 <= i <= bytes.len(),
        parse_dir(bytes, i, name, acc) is Some,
        forall|a: int, b: int| 0 <= a < b < s.len() ==> #[trigger] s[a].0 != #[trigger] s[b].0,
        forall|a: int|
            0 <= a < s.len() ==> parse_dir(bytes, i, name, acc)->0.contains_key(#[trigger] s[a].0)
                && !acc.contains_key(s[a].0),
    ensures
        listing_weight(s) <= bytes.len() - i + name.len(),
    decreases bytes.len() - i, s.len(),
{
    let result = parse_dir(bytes, i, name, acc)->0;
    if i >= bytes.len() {
        if s.len() > 0 {
            assert(result.contains_key(s[0].0));
        }
        assert(s.len() == 0);
    } else if bytes[i] != 0 {
        lemma_parse_bounds_weight(bytes, i + 1, name.push(bytes[i] as char), acc, s);
    } else {
        let acc2 = acc.insert(name, word_from(bytes, i + 1) as usize);
        assert(parse_dir(bytes, i + 9, Seq::empty(), acc2) == parse_dir(bytes, i, name, acc));
        if exists|j: int| 0 <= j < s.len() && s[j].0 == name {
            let j = choose|j: int| 0 <= j < s.len() && s[j].0 == name;
            let t = s.remove(j);
            assert forall|a: int, b: int| 0 <= a < b < t.len() implies #[trigger] t[a].0 != #[trigger] t[b].0 by {
                let a2 = if a < j { a } else { a + 1 };
                let b2 = if b < j { b } else { b + 1 };
                assert(t[a] == s[a2] && t[b] == s[b2]);
            }
            assert forall|a: int| 0 <= a < t.len() implies parse_dir(bytes, i + 9, Seq::empty(), acc2)->0.contains_key(
                #[trigger] t[a].0,
            ) && !acc2.contains_key(t[a].0) by {
                let a2 = if a < j { a } else { a + 1 };
                assert(t[a] == s[a2]);
                assert(s[a2].0 != s[j].0);
            }
            lemma_parse_bounds_weight(bytes, i + 9, Seq::empty(), acc2, t);
            lemma_listing_weight_remove(s, j);
        } else {
            assert forall|a: int| 0 <= a < s.len() implies parse_dir(bytes, i + 9, Seq::empty(), acc2)->0.contains_key(
                #[trigger] s[a].0,
            ) && !acc2.contains_key(s[a].0) by {
                assert(s[a].0 != name);
            }
            lemma_parse_bounds_weight(bytes, i + 9, Seq::empty(), acc2, s);
        }
    }
}

proof fn lemma_encoded_len_remove(s: Seq<(Seq<char>, usize)>, j: int)
    requires
        0 <= j < s.len(),
    ensures
        encode_listing(s).len() == encode_listing(s.remove(j)).len() + encode_entry(s[j].0, s[j].1).len(),
    decreases s.len(),
{
    if j < s.len() - 1 {
        lemma_encoded_len_remove(s.drop_last(), j);
        assert(s.remove(j).drop_last() =~= s.drop_last().remove(j));
        assert(s.remove(j).last() == s.last());
    } else {
        assert(s.remove(j) =~= s.drop_last());
    }
}

/// Two listings of the same entries are stored in the same number of
/// bytes: the size of a directory's content does not depend on the order
/// its entries come in.
pub proof fn listing_length_is_order_free(
    s1: Seq<(Seq<char>, usize)>,
    s2: Seq<(Seq<char>, usize)>,
    m: Map<Seq<char>, usize>,
)
    requires
        is_listing(s1, m),
        is_listing(s2, m),
    ensures
        encode_listing(s1).len() == encode_listing(s2).len(),
    decreases s1.len(),
{
    if s1.len() == 0 {
        if s2.len() > 0 {
            assert(m.contains_key(s2[0].0));
        }
    } else {
        let last = s1.len() - 1;
        let e = s1[last];
        assert(m.contains_key(e.0));
        let j = choose|j: int| 0 <= j < s2.len() && #[trigger] s2[j].0 == e.0;
        let m2 = m.remove(e.0);
        let t1 = s1.drop_last();
        let t2 = s2.remove(j);
        assert forall|a: int| 0 <= a < t1.len() implies #[trigger] m2.contains_key(t1[a].0) && m2[t1[a].0]
            == t1[a].1 by {
            assert(t1[a] == s1[a]);
            assert(s1[a].0 != s1[last].0);
        }
        assert forall|k: Seq<char>| #[trigger] m2.contains_key(k) implies exists|a: int|
            0 <= a < t1.len() && #[trigger] t1[a].0 == k by {
            assert(m.contains_key(k));
            let a = choose|a: int| 0 <= a < s1.len() && #[trigger] s1[a].0 == k;
            assert(a != last);
            assert(t1[a] == s1[a]);
        }
        assert forall|a: int, b: int| 0 <= a < b < t1.len() implies #[trigger] t1[a].0 != #[trigger] t1[b].0 by {
            assert(t1[a] == s1[a] && t1[b] == s1[b]);
        }
        assert forall|a: int| 0 <= a < t2.len() implies #[trigger] m2.contains_key(t2[a].0) && m2[t2[a].0]
            == t2[a].1 by {
            let a2 = if a < j { a } else { a + 1 };
            assert(0 <= a2 < s2.len());
            assert(t2[a] == s2[a2]);
            assert(m.contains_key(s2[a2].0));
            if a2 < j {
                assert(s2[a2].0 != s2[j].0);
            } else {
                assert(s2[j].0 != s2[a2].0);
            }
        }
        assert forall|k: Seq<char>| #[trigger] m2.contains_key(k) implies exists|a: int|
            0 <= a < t2.len() && #[trigger] t2[a].0 == k by {
            assert(m.contains_key(k));
            let b = choose|b: int| 0 <= b < s2.len() && #[trigger] s2[b].0 == k;
            assert(b != j);
            if b < j {
                assert(t2[b] == s2[b]);
            } else {
                assert(t2[b - 1] == s2[b]);
            }
        }
        assert forall|a: int, b: int| 0 <= a < b < t2.len() implies #[trigger] t2[a].0 != #[trigger] t2[b].0 by {
            let a2 = if a < j { a } else { a + 1 };
            let b2 = if b < j { b } else { b + 1 };
            assert(t2[a] == s2[a2] && t2[b] == s2[b2]);
        }
        listing_length_is_order_free(t1, t2, m2);
        lemma_encoded_len_remove(s2, j);
        assert(s2[j] == e);
        assert(s1.last() == e);
    }
}

} // verus!

