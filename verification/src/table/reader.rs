//! Reading SSTable images: footer, properties, index, and checksummed data blocks.
use vstd::prelude::*;

use std::sync::Arc;

use crate::cache::block_cache::BlockCache;
use crate::error::{corruption, Error, Result};
use crate::util::shared::share;
use crate::key::{bytes_less, bytes_lt, InternalKey, InternalKeyView};
use crate::memtable::{copy_entries, entries_view, first_visible, EntryView};
use crate::memtable::btree::ValueRecord;
use crate::memtable::btree::opt_record_view as record_opt_view;
use crate::table::block::{spec_decode_block, Block};
use crate::table::builder::{index_view, IndexEntry, IndexEntryView};
use crate::table::filter::TableFilter;
use crate::table::format::{
    decode_footer, decode_internal_key, spec_decode_footer, spec_decode_internal_key, BlockHandle,
    CompressionType, BLOCK_TRAILER_SIZE, FOOTER_SIZE,
};
use crate::table::properties::{opt_key_view, spec_decode_properties, TableProperties};
use crate::util::bloom::spec_may_contain;
use crate::util::coding::{get_fixed, get_var_u32, get_var_u64, le_value, max_u32, max_u64, spec_get_var};
use crate::util::crc::{crc32c, spec_crc32c};

verus! {

/// What zstd decompression of `input` yields, if it succeeds.
pub uninterp spec fn zstd_decoded(input: Seq<u8>) -> Option<Seq<u8>>;

/// Decompresses a zstd stream with `zstd::stream::decode_all`. The contract claims only
/// that the outcome is a function of the input: success with the bytes that
/// `zstd_decoded` names, or failure exactly when `zstd_decoded` gives none.
#[verifier::external_body]
fn zstd_decode_all(input: &[u8]) -> (r: core::result::Result<Vec<u8>, std::io::Error>)
    ensures
        match r {
            Ok(v) => zstd_decoded(input@) == Some(v@),
            Err(_) => zstd_decoded(input@) is None,
        },
{
    zstd::stream::decode_all(input)
}

/// The error a read past the end of a file reports: `std::io::Error::from` of
/// `ErrorKind::UnexpectedEof`. Nothing is claimed of the value.
#[verifier::external_body]
fn unexpected_eof() -> std::io::Error {
    std::io::Error::from(std::io::ErrorKind::UnexpectedEof)
}

/// Whether a block and its trailer lie inside the file.
pub open spec fn block_in_file(file: Seq<u8>, h: BlockHandle) -> bool {
    h.offset + h.size + 5 <= file.len()
}

/// The stored bytes of a block.
pub open spec fn stored_block(file: Seq<u8>, h: BlockHandle) -> Seq<u8> {
    file.subrange(h.offset as int, (h.offset + h.size) as int)
}

/// The compression byte of a block's trailer.
pub open spec fn trailer_type(file: Seq<u8>, h: BlockHandle) -> u8 {
    file[(h.offset + h.size) as int]
}

/// Whether the checksum in a block's trailer matches the block.
pub open spec fn checksum_ok(file: Seq<u8>, h: BlockHandle) -> bool {
    let end = (h.offset + h.size) as int;
    le_value(file.subrange(end + 1, end + 5)) == spec_crc32c(seq![file[end]] + stored_block(file, h))
}

/// The contents of a block, if it lies in the file, its compression type is known, its
/// checksum matches and (for zstd) it decompresses.
pub open spec fn spec_read_block(file: Seq<u8>, h: BlockHandle) -> Option<Seq<u8>> {
    if !block_in_file(file, h) || trailer_type(file, h) > 1 || !checksum_ok(file, h) {
        None
    } else if trailer_type(file, h) == 0 {
        Some(stored_block(file, h))
    } else {
        zstd_decoded(stored_block(file, h))
    }
}

/// Reads, checks and decompresses one block.
pub fn read_block(file: &[u8], handle: BlockHandle) -> (r: Result<Vec<u8>>)
    ensures
        match spec_read_block(file@, handle) {
            Some(b) => r matches Ok(v) && v@ == b,
            None => r is Err,
        },
        !block_in_file(file@, handle) ==> r matches Err(Error::Io(_)),
        block_in_file(file@, handle) && (trailer_type(file@, handle) > 1 || !checksum_ok(file@, handle))
            ==> r matches Err(Error::Corruption(_)),
        block_in_file(file@, handle) && trailer_type(file@, handle) == 1 && checksum_ok(file@, handle)
            && zstd_decoded(stored_block(file@, handle)) is None ==> r matches Err(Error::Io(_)),
{
    let len = file.len() as u64;
    if handle.offset > len || handle.size > len - handle.offset || len - handle.offset - handle.size < 5 {
        return Err(Error::Io(unexpected_eof()));
    }
    let start = handle.offset as usize;
    let end = (handle.offset + handle.size) as usize;
    let block = vstd::slice::slice_subrange(file, start, end);
    let compression = CompressionType::from_u8(file[end])?;
    let expected = get_fixed(file, end + 1, 4);
    let mut checksum_input: Vec<u8> = Vec::new();
    checksum_input.push(file[end]);
    checksum_input.extend_from_slice(block);
    let actual = crc32c(checksum_input.as_slice());
    proof {
        assert(checksum_input@ =~= seq![file@[end as int]] + stored_block(file@, handle));
        assert(file@.subrange(end + 1, end + 5) =~= file@.subrange(end + 1, end + 1 + 4));
    }
    if expected != actual as u64 {
        return Err(corruption("SSTable block checksum mismatch"));
    }
    match compression {
        CompressionType::NoCompression => Ok(vstd::slice::slice_to_vec(block)),
        CompressionType::Zstd => match zstd_decode_all(block) {
            Ok(v) => Ok(v),
            Err(e) => Err(Error::Io(e)),
        },
    }
}

/// The decoded entries of a block, if reading and decoding succeed.
pub open spec fn spec_block_entries(file: Seq<u8>, h: BlockHandle) -> Option<Seq<EntryView>> {
    match spec_read_block(file, h) {
        Some(b) => spec_decode_block(b),
        None => None,
    }
}

/// Reads and decodes one block.
pub fn read_decoded_block(file: &[u8], handle: BlockHandle) -> (r: Result<Block>)
    ensures
        match spec_block_entries(file@, handle) {
            Some(es) => r matches Ok(b) && b@ == es,
            None => r is Err,
        },
        checksum_fails(file@, handle) ==> r matches Err(Error::Corruption(_)),
{
    let bytes = match read_block(file, handle) {
        Ok(b) => b,
        Err(e) => return Err(e),
    };
    Block::decode(bytes.as_slice())
}

/// Whether a block lies inside the file but its trailer names an unknown compression or
/// its checksum does not match.
pub open spec fn checksum_fails(file: Seq<u8>, h: BlockHandle) -> bool {
    block_in_file(file, h) && (trailer_type(file, h) > 1 || !checksum_ok(file, h))
}

/// Reads one index entry at `pos`.
#[verifier::opaque]
pub open spec fn spec_decode_index_entry(s: Seq<u8>, pos: nat) -> Option<(IndexEntryView, nat)> {
    match spec_decode_internal_key(s, pos) {
        None => None,
        Some((first, p1)) => match spec_decode_internal_key(s, p1) {
            None => None,
            Some((last, p2)) => match spec_get_var(s, p2, 10, max_u64()) {
                None => None,
                Some((offset, p3)) => match spec_get_var(s, p3, 10, max_u64()) {
                    None => None,
                    Some((size, p4)) => Some(((first, last, BlockHandle { offset: offset as u64, size: size as u64 }), p4)),
                },
            },
        },
    }
}

/// Reads `n` index entries starting at `pos`.
pub open spec fn spec_decode_index_entries(s: Seq<u8>, pos: nat, n: nat) -> Option<(Seq<IndexEntryView>, nat)>
    decreases n,
{
    if n == 0 {
        Some((Seq::empty(), pos))
    } else {
        match spec_decode_index_entries(s, pos, (n - 1) as nat) {
            None => None,
            Some((es, p)) => match spec_decode_index_entry(s, p) {
                None => None,
                Some((e, p2)) => Some((es.push(e), p2)),
            },
        }
    }
}

/// An index block: the entry count, exactly that many entries, and nothing after.
pub open spec fn spec_decode_index(s: Seq<u8>) -> Option<Seq<IndexEntryView>> {
    match spec_get_var(s, 0, 5, max_u32()) {
        None => None,
        Some((count, p1)) => match spec_decode_index_entries(s, p1, count) {
            None => None,
            Some((es, p)) => if p == s.len() {
                Some(es)
            } else {
                None
            },
        },
    }
}

proof fn lemma_index_entries_none_propagates(s: Seq<u8>, pos: nat, n: nat, m: nat)
    requires
        spec_decode_index_entries(s, pos, n) is None,
        n <= m,
    ensures
        spec_decode_index_entries(s, pos, m) is None,
    decreases m,
{
    if n < m {
        lemma_index_entries_none_propagates(s, pos, n, (m - 1) as nat);
    }
}

fn decode_index_entry(src: &[u8], pos: usize) -> (r: Result<(IndexEntry, usize)>)
    ensures
        match spec_decode_index_entry(src@, pos as nat) {
            Some((e, p)) => r matches Ok((entry, q)) && entry@ == e && q == p,
            None => r matches Err(Error::Corruption(_)),
        },
{
    reveal(spec_decode_index_entry);
    let (first_key, p1) = match decode_internal_key(src, pos) {
        Ok(x) => x,
        Err(e) => return Err(e),
    };
    let (last_key, p2) = match decode_internal_key(src, p1) {
        Ok(x) => x,
        Err(e) => return Err(e),
    };
    let r3 = get_var_u64(src, p2);
    let (offset, p3) = match r3 {
        Ok(x) => x,
        Err(e) => return Err(e),
    };
    proof {
        let (v, q) = spec_get_var(src@, p2 as nat, 10, max_u64()).unwrap();
        assert(r3 == Ok::<(u64, usize), Error>((v as u64, q as usize)));
        assert(src@.len() == src.len());
        assert(offset as nat == v && p3 as nat == q);
    }
    let r4 = get_var_u64(src, p3);
    let (size, p4) = match r4 {
        Ok(x) => x,
        Err(e) => return Err(e),
    };
    proof {
        let (v, q) = spec_get_var(src@, p3 as nat, 10, max_u64()).unwrap();
        assert(r4 == Ok::<(u64, usize), Error>((v as u64, q as usize)));
        assert(size as nat == v && p4 as nat == q);
    }
    Ok((IndexEntry { first_key, last_key, handle: BlockHandle::new(offset, size) }, p4))
}

/// Decodes an index block.
pub fn decode_index_entries(bytes: &[u8]) -> (r: Result<Vec<IndexEntry>>)
    ensures
        match spec_decode_index(bytes@) {
            Some(es) => r matches Ok(v) && index_view(v@) == es,
            None => r matches Err(Error::Corruption(_)),
        },
{
    let header = get_var_u32(bytes, 0);
    let (count, p1) = match header {
        Ok(x) => x,
        Err(e) => return Err(e),
    };
    proof {
        let (v, q) = spec_get_var(bytes@, 0, 5, max_u32()).unwrap();
        assert(header == Ok::<(u32, usize), Error>((v as u32, q as usize)));
        assert(count == v as u32 && p1 == q as usize);
        assert(q <= bytes@.len());
        assert(bytes@.len() == bytes.len());
        assert(count as nat == v);
        assert(p1 as nat == q);
    }
    let mut entries: Vec<IndexEntry> = Vec::new();
    let mut pos = p1;
    let mut i: u32 = 0;
    assert(index_view(entries@) =~= Seq::<IndexEntryView>::empty());
    while i < count
        invariant
            i <= count,
            spec_get_var(bytes@, 0, 5, max_u32()) == Some((count as nat, p1 as nat)),
            spec_decode_index_entries(bytes@, p1 as nat, i as nat) == Some((index_view(entries@), pos as nat)),
        decreases count - i,
    {
        match decode_index_entry(bytes, pos) {
            Ok((e, next)) => {
                let ghost old_entries = index_view(entries@);
                entries.push(e);
                assert(index_view(entries@) =~= old_entries.push(e@));
                pos = next;
            },
            Err(err) => {
                proof {
                    lemma_index_entries_none_propagates(bytes@, p1 as nat, (i + 1) as nat, count as nat);
                }
                return Err(err);
            },
        }
        i = i + 1;
    }
    if pos != bytes.len() {
        return Err(corruption("trailing index bytes"));
    }
    Ok(entries)
}


/// The newest version of `user_key` visible at `read_seq` among a block's entries.
fn find_in_block(block: &Block, user_key: &[u8], read_seq: u64) -> (r: Option<ValueRecord>)
    ensures
        record_opt_view(r) == first_visible(block@, user_key@, read_seq),
{
    let entries = block.entries();
    let mut j: usize = 0;
    let ghost es = block@;
    assert(es.skip(0) =~= es);
    while j < entries.len()
        invariant
            es == entries_view(entries@),
            es == block@,
            j <= es.len(),
            first_visible(es, user_key@, read_seq) == first_visible(es.skip(j as int), user_key@, read_seq),
        decreases es.len() - j,
    {
        let (key, value) = &entries[j];
        assert(es.skip(j as int)[0] == es[j as int]);
        if crate::key::bytes_equal(key.user_key(), user_key) && key.sequence() <= read_seq {
            let found = value.duplicate();
            assert(first_visible(es, user_key@, read_seq) == Some(es[j as int].1));
            return Some(found);
        }
        proof {
            assert(es.skip(j as int).drop_first() =~= es.skip(j + 1));
        }
        j = j + 1;
    }
    assert(es.skip(j as int).len() == 0);
    None
}

/// Whether index entries that share a block offset name the same block (the same
/// handle), so that a cache keyed by offset holds one block per offset.
pub open spec fn offsets_name_one_block(idx: Seq<IndexEntryView>) -> bool {
    forall|i: int, j: int| 0 <= i < idx.len() && 0 <= j < idx.len() && #[trigger] idx[i].2.offset == #[trigger] idx[j].2.offset
        ==> idx[i].2 == idx[j].2
}

/// Whether every block a cache holds for `table_number` is the decoded block the
/// index entry at that offset names.
pub open spec fn cache_consistent(cache: Map<(u64, u64), Seq<EntryView>>, table_number: u64, file: Seq<u8>, idx: Seq<IndexEntryView>) -> bool {
    forall|i: int| 0 <= i < idx.len() && #[trigger] cache.dom().contains((table_number, idx[i].2.offset))
        ==> spec_block_entries(file, idx[i].2) == Some(cache[(table_number, idx[i].2.offset)])
}

/// Whether a block whose keys run from `e.0` to `e.1` may hold `key`.
pub open spec fn index_may_contain(e: IndexEntryView, key: Seq<u8>) -> bool {
    !bytes_lt(key, e.0.0) && !bytes_lt(e.1.0, key)
}

fn index_may_contain_user_key(index: &IndexEntry, user_key: &[u8]) -> (r: bool)
    ensures
        r == index_may_contain(index@, user_key@),
{
    !bytes_less(user_key, index.first_key.user_key()) && !bytes_less(index.last_key.user_key(), user_key)
}

/// A point read over the blocks of `idx` from the `i`-th on: the first block that may
/// hold `key` and has a version visible at `read_seq` decides. `None` is a read or
/// decode failure; `Some(None)` means nothing was found.
pub open spec fn spec_table_get_from(file: Seq<u8>, idx: Seq<IndexEntryView>, i: int, key: Seq<u8>, read_seq: u64) -> Option<Option<Option<Seq<u8>>>>
    decreases idx.len() - i,
{
    if i < 0 || i >= idx.len() {
        Some(None)
    } else if !index_may_contain(idx[i], key) {
        spec_table_get_from(file, idx, i + 1, key, read_seq)
    } else {
        match spec_block_entries(file, idx[i].2) {
            None => None,
            Some(es) => match first_visible(es, key, read_seq) {
                Some(rec) => Some(Some(rec)),
                None => spec_table_get_from(file, idx, i + 1, key, read_seq),
            },
        }
    }
}

/// The block at which a point read from the `i`-th index entry on stops because the
/// block cannot be read or decoded, if it stops at one.
pub open spec fn spec_get_failed_block(file: Seq<u8>, idx: Seq<IndexEntryView>, i: int, key: Seq<u8>, read_seq: u64) -> Option<BlockHandle>
    decreases idx.len() - i,
{
    if i < 0 || i >= idx.len() {
        None
    } else if !index_may_contain(idx[i], key) {
        spec_get_failed_block(file, idx, i + 1, key, read_seq)
    } else {
        match spec_block_entries(file, idx[i].2) {
            None => Some(idx[i].2),
            Some(es) => match first_visible(es, key, read_seq) {
                Some(rec) => None,
                None => spec_get_failed_block(file, idx, i + 1, key, read_seq),
            },
        }
    }
}

/// Whether every readable block named by the index holds only user keys within its index
/// entry's range, as the builder records it.
pub open spec fn blocks_within_index(file: Seq<u8>, idx: Seq<IndexEntryView>) -> bool {
    forall|i: int| 0 <= i < idx.len() ==> match #[trigger] spec_block_entries(file, idx[i].2) {
        Some(es) => forall|j: int| 0 <= j < es.len()
            ==> !bytes_lt(#[trigger] es[j].0.0, idx[i].0.0) && !bytes_lt(idx[i].1.0, es[j].0.0),
        None => true,
    }
}

/// A point read of a table agrees with its entries: when every block holds only keys
/// within its index range and every block from the `i`-th on reads, the read from the
/// `i`-th block on finds the first entry of those blocks, in order, that is a version of
/// `key` visible at `read_seq`, going on past blocks that hold only newer versions.
pub proof fn lemma_table_get_reads_entries(file: Seq<u8>, idx: Seq<IndexEntryView>, i: int, key: Seq<u8>, read_seq: u64)
    requires
        blocks_within_index(file, idx),
        0 <= i <= idx.len(),
        spec_table_entries_from(file, idx, i) is Some,
    ensures
        spec_table_get_from(file, idx, i, key, read_seq) == Some(first_visible(spec_table_entries_from(file, idx, i).unwrap(), key, read_seq)),
    decreases idx.len() - i,
{
    if i < idx.len() {
        let es = spec_block_entries(file, idx[i].2).unwrap();
        let rest = spec_table_entries_from(file, idx, i + 1).unwrap();
        lemma_table_get_reads_entries(file, idx, i + 1, key, read_seq);
        crate::memtable::lemma_first_visible_concat(es, rest, key, read_seq);
        if !index_may_contain(idx[i], key) {
            assert forall|j: int| 0 <= j < es.len() implies (#[trigger] es[j]).0.0 != key by {
                assert(!bytes_lt(es[j].0.0, idx[i].0.0) && !bytes_lt(idx[i].1.0, es[j].0.0));
            }
            crate::memtable::lemma_first_visible_absent(es, key, read_seq);
        }
    } else {
        assert(spec_table_entries_from(file, idx, i) == Some(Seq::<EntryView>::empty()));
    }
}

/// A point read that fails stops at a block that cannot be read or decoded.
pub proof fn lemma_table_get_failure_names_block(file: Seq<u8>, idx: Seq<IndexEntryView>, i: int, key: Seq<u8>, read_seq: u64)
    requires
        spec_table_get_from(file, idx, i, key, read_seq) is None,
    ensures
        spec_get_failed_block(file, idx, i, key, read_seq) matches Some(h) && spec_block_entries(file, h) is None,
    decreases idx.len() - i,
{
    if 0 <= i < idx.len() {
        if !index_may_contain(idx[i], key) {
            lemma_table_get_failure_names_block(file, idx, i + 1, key, read_seq);
        } else {
            match spec_block_entries(file, idx[i].2) {
                None => {},
                Some(es) => {
                    lemma_table_get_failure_names_block(file, idx, i + 1, key, read_seq);
                },
            }
        }
    }
}

/// All entries of the blocks of `idx` from the `i`-th on, in order.
pub open spec fn spec_table_entries_from(file: Seq<u8>, idx: Seq<IndexEntryView>, i: int) -> Option<Seq<EntryView>>
    decreases idx.len() - i,
{
    if i < 0 || i >= idx.len() {
        Some(Seq::empty())
    } else {
        match spec_block_entries(file, idx[i].2) {
            None => None,
            Some(es) => match spec_table_entries_from(file, idx, i + 1) {
                None => None,
                Some(rest) => Some(es + rest),
            },
        }
    }
}

/// What opening a table image yields: its index and properties, if the footer,
/// properties block and index block all read and decode.
pub open spec fn spec_open_table(file: Seq<u8>) -> Option<(Seq<IndexEntryView>, crate::table::properties::PropertiesView)> {
    if file.len() < FOOTER_SIZE {
        None
    } else {
        match spec_decode_footer(file.subrange(file.len() - FOOTER_SIZE, file.len() as int)) {
            None => None,
            Some((ph, ih)) => match spec_read_block(file, ph) {
                None => None,
                Some(pb) => match spec_decode_properties(pb) {
                    None => None,
                    Some(props) => match spec_read_block(file, ih) {
                        None => None,
                        Some(ib) => match spec_decode_index(ib) {
                            None => None,
                            Some(idx) => Some((idx, props)),
                        },
                    },
                },
            },
        }
    }
}

/// A table image opened for reading.
#[derive(Debug)]
pub struct SSTableReader {
    file: Vec<u8>,
    index: Vec<IndexEntry>,
    properties: TableProperties,
    filter: TableFilter,
}

impl SSTableReader {
    /// The table image.
    pub closed spec fn image(&self) -> Seq<u8> {
        self.file@
    }

    /// The index entries.
    pub closed spec fn index_entries(&self) -> Seq<IndexEntryView> {
        index_view(self.index@)
    }

    /// The properties.
    pub closed spec fn props(&self) -> crate::table::properties::PropertiesView {
        self.properties@
    }

    pub closed spec fn wf(&self) -> bool {
        &&& self.filter.wf()
        &&& forall|k: Seq<u8>| spec_may_contain(self.filter.bytes(), k) == spec_may_contain(self.properties.filter@, k)
    }

    /// The table image.
    pub(crate) fn image_bytes(&self) -> (r: &[u8])
        ensures
            r@ == self.image(),
    {
        self.file.as_slice()
    }

    /// The index entries.
    pub(crate) fn index_list(&self) -> (r: &[IndexEntry])
        ensures
            index_view(r@) == self.index_entries(),
    {
        self.index.as_slice()
    }

    /// Whether this reader is what opening its image yields.
    pub closed spec fn opened(&self) -> bool {
        &&& self.wf()
        &&& spec_open_table(self.file@) == Some((index_view(self.index@), self.properties@))
    }

    /// Opens a table image: `Corruption` when it is shorter than a footer or its footer
    /// does not decode (a wrong magic number among them).
    pub fn open(file: Vec<u8>) -> (r: Result<Self>)
        ensures
            match spec_open_table(file@) {
                Some((idx, props)) => r matches Ok(t) && t.wf() && t.opened() && t.image() == file@ && t.index_entries() == idx
                    && t.props() == props,
                None => r is Err,
            },
            file@.len() < FOOTER_SIZE ==> r matches Err(Error::Corruption(_)),
            file@.len() >= FOOTER_SIZE && spec_decode_footer(file@.subrange(file@.len() - FOOTER_SIZE, file@.len() as int)) is None
                ==> r matches Err(Error::Corruption(_)),
    {
        let len = file.len();
        if len < FOOTER_SIZE {
            return Err(corruption("SSTable is too small"));
        }
        let footer = vstd::slice::slice_subrange(file.as_slice(), len - FOOTER_SIZE, len);
        let (properties_handle, index_handle) = decode_footer(footer)?;
        let properties_block = read_block(file.as_slice(), properties_handle)?;
        let properties = TableProperties::decode(properties_block.as_slice())?;
        let index_block = read_block(file.as_slice(), index_handle)?;
        let index = decode_index_entries(index_block.as_slice())?;
        let filter = TableFilter::decode(properties.filter.as_slice());
        proof {
            assert forall|k: Seq<u8>| spec_may_contain(filter.bytes(), k) == spec_may_contain(properties.filter@, k) by {
                if properties.filter@.len() < 2 {
                    assert(filter.bytes().len() == 0);
                }
            }
        }
        Ok(SSTableReader { file, index, properties, filter })
    }

    /// The newest version of `user_key` visible at `read_seq`, if the table holds one.
    pub fn get(&self, user_key: &[u8], read_seq: u64) -> (r: Result<Option<ValueRecord>>)
        requires
            self.wf(),
        ensures
            match (if !spec_may_contain(self.props().3, user_key@) {
                Some(None)
            } else {
                spec_table_get_from(self.image(), self.index_entries(), 0, user_key@, read_seq)
            }) {
                Some(found) => r matches Ok(v) && record_opt_view(v) == found,
                None => r is Err,
            },
            self.failed_block_checksum(user_key@, read_seq) ==> r matches Err(Error::Corruption(_)),
    {
        if !self.might_contain(user_key) {
            return Ok(None);
        }
        let ghost idx = self.index_entries();
        let mut i: usize = 0;
        while i < self.index.len()
            invariant
                idx == self.index_entries(),
                idx == index_view(self.index@),
                i <= idx.len(),
                spec_may_contain(self.props().3, user_key@),
                spec_table_get_from(self.image(), idx, 0, user_key@, read_seq) == spec_table_get_from(self.image(), idx, i as int, user_key@, read_seq),
                spec_get_failed_block(self.image(), idx, 0, user_key@, read_seq) == spec_get_failed_block(self.image(), idx, i as int, user_key@, read_seq),
            decreases idx.len() - i,
        {
            let entry = &self.index[i];
            assert(idx[i as int] == entry@);
            if index_may_contain_user_key(entry, user_key) {
                let read = read_decoded_block(self.file.as_slice(), entry.handle);
                let block = match read {
                    Ok(b) => b,
                    Err(e) => {
                        assert(spec_block_entries(self.image(), idx[i as int].2) is None);
                        assert(spec_table_get_from(self.image(), idx, i as int, user_key@, read_seq) is None);
                        return Err(e);
                    },
                };
                assert(spec_block_entries(self.image(), idx[i as int].2) == Some(block@));
                match find_in_block(&block, user_key, read_seq) {
                    Some(v) => return Ok(Some(v)),
                    None => {},
                }
            }
            i = i + 1;
        }
        Ok(None)
    }

    /// A point read agrees with the table's entries: when its blocks all read and hold
    /// only keys within their index ranges, a read of a key the filter admits gives the
    /// first version of it, in entry order, visible at `read_seq`.
    pub proof fn lemma_get_agrees_with_entries(&self, user_key: Seq<u8>, read_seq: u64)
        requires
            blocks_within_index(self.image(), self.index_entries()),
            spec_table_entries_from(self.image(), self.index_entries(), 0) is Some,
            spec_may_contain(self.props().3, user_key),
        ensures
            self.spec_get(user_key, read_seq) == Some(first_visible(
                spec_table_entries_from(self.image(), self.index_entries(), 0).unwrap(),
                user_key,
                read_seq,
            )),
    {
        lemma_table_get_reads_entries(self.image(), self.index_entries(), 0, user_key, read_seq);
    }

    /// Whether a point read stops at a block that fails its checksum (or names an
    /// unknown compression).
    pub open spec fn failed_block_checksum(&self, user_key: Seq<u8>, read_seq: u64) -> bool {
        &&& spec_may_contain(self.props().3, user_key)
        &&& spec_get_failed_block(self.image(), self.index_entries(), 0, user_key, read_seq) matches Some(h)
        &&& checksum_fails(self.image(), h)
    }

    /// What a point read yields: `Some(found)` when it succeeds, `None` when a block
    /// cannot be read or decoded.
    pub open spec fn spec_get(&self, user_key: Seq<u8>, read_seq: u64) -> Option<Option<Option<Seq<u8>>>> {
        if !spec_may_contain(self.props().3, user_key) {
            Some(None)
        } else {
            spec_table_get_from(self.image(), self.index_entries(), 0, user_key, read_seq)
        }
    }

    /// A point read that consults and fills `block_cache` under `table_number` when
    /// `fill_cache` is set. When the cache holds, for this table number, only the blocks
    /// this table's index names, the result is that of [`SSTableReader::get`] and the
    /// cache keeps holding only such blocks; a read that stops at a block failing its
    /// checksum is a `Corruption` error.
    pub fn get_with_cache(
        &self,
        user_key: &[u8],
        read_seq: u64,
        table_number: u64,
        block_cache: Option<&mut BlockCache>,
        fill_cache: bool,
    ) -> (r: Result<Option<ValueRecord>>)
        requires
            self.wf(),
            block_cache matches Some(c) ==> c.wf() && (fill_cache ==> c.spec_stats().hits + self.index_entries().len() < u64::MAX
                && c.spec_stats().misses + self.index_entries().len() < u64::MAX),
        ensures
            block_cache is None || !fill_cache ==> match self.spec_get(user_key@, read_seq) {
                Some(found) => r matches Ok(v) && record_opt_view(v) == found,
                None => r is Err,
            },
            block_cache is None || !fill_cache ==> (self.failed_block_checksum(user_key@, read_seq) ==> r matches Err(Error::Corruption(_))),
            block_cache matches Some(c) ==> final(c).wf() && final(c).capacity() == c.capacity()
                && final(c).spec_stats().hits <= c.spec_stats().hits + self.index_entries().len()
                && final(c).spec_stats().misses <= c.spec_stats().misses + self.index_entries().len()
                && forall|k: (u64, u64)| #[trigger] final(c).cached().dom().contains(k) && k.0 != table_number
                    ==> c.cached().dom().contains(k) && final(c).cached()[k] == c.cached()[k],
            block_cache matches Some(c) ==> !fill_cache ==> final(c).cached() == c.cached() && final(c).spec_stats() == c.spec_stats(),
            block_cache matches Some(c) ==> fill_cache && offsets_name_one_block(self.index_entries())
                && cache_consistent(c.cached(), table_number, self.image(), self.index_entries())
                ==> cache_consistent(final(c).cached(), table_number, self.image(), self.index_entries())
                && (match self.spec_get(user_key@, read_seq) {
                    Some(found) => r matches Ok(v) && record_opt_view(v) == found,
                    None => r is Err,
                })
                && (self.failed_block_checksum(user_key@, read_seq) ==> r matches Err(Error::Corruption(_))),
    {
        match block_cache {
            Some(cache) => {
                if fill_cache {
                    self.get_cached(user_key, read_seq, table_number, cache)
                } else {
                    self.get(user_key, read_seq)
                }
            },
            None => self.get(user_key, read_seq),
        }
    }

    /// A point read through a block cache.
    fn get_cached(&self, user_key: &[u8], read_seq: u64, table_number: u64, cache: &mut BlockCache) -> (r: Result<Option<ValueRecord>>)
        requires
            self.wf(),
            old(cache).wf(),
            old(cache).spec_stats().hits + self.index_entries().len() < u64::MAX,
            old(cache).spec_stats().misses + self.index_entries().len() < u64::MAX,
        ensures
            final(cache).wf(),
            final(cache).capacity() == old(cache).capacity(),
            final(cache).spec_stats().hits <= old(cache).spec_stats().hits + self.index_entries().len(),
            final(cache).spec_stats().misses <= old(cache).spec_stats().misses + self.index_entries().len(),
            forall|k: (u64, u64)| #[trigger] final(cache).cached().dom().contains(k) && k.0 != table_number
                ==> old(cache).cached().dom().contains(k) && final(cache).cached()[k] == old(cache).cached()[k],
            offsets_name_one_block(self.index_entries()) && cache_consistent(old(cache).cached(), table_number, self.image(), self.index_entries())
                ==> cache_consistent(final(cache).cached(), table_number, self.image(), self.index_entries())
                && (match self.spec_get(user_key@, read_seq) {
                    Some(found) => r matches Ok(v) && record_opt_view(v) == found,
                    None => r is Err,
                })
                && (self.failed_block_checksum(user_key@, read_seq) ==> r matches Err(Error::Corruption(_))),
    {
        if !self.might_contain(user_key) {
            return Ok(None);
        }
        let ghost idx = self.index_entries();
        let ghost good = offsets_name_one_block(idx) && cache_consistent(old(cache).cached(), table_number, self.image(), idx);
        let mut i: usize = 0;
        while i < self.index.len()
            invariant
                idx == self.index_entries(),
                idx == index_view(self.index@),
                i <= idx.len(),
                self.wf(),
                cache.wf(),
                cache.capacity() == old(cache).capacity(),
                cache.spec_stats().hits + (idx.len() - i) < u64::MAX,
                cache.spec_stats().misses + (idx.len() - i) < u64::MAX,
                cache.spec_stats().hits <= old(cache).spec_stats().hits + i,
                cache.spec_stats().misses <= old(cache).spec_stats().misses + i,
                forall|k: (u64, u64)| #[trigger] cache.cached().dom().contains(k) && k.0 != table_number
                    ==> old(cache).cached().dom().contains(k) && cache.cached()[k] == old(cache).cached()[k],
                spec_may_contain(self.props().3, user_key@),
                good == (offsets_name_one_block(idx) && cache_consistent(old(cache).cached(), table_number, self.image(), idx)),
                good ==> cache_consistent(cache.cached(), table_number, self.image(), idx),
                good ==> spec_table_get_from(self.image(), idx, 0, user_key@, read_seq) == spec_table_get_from(self.image(), idx, i as int, user_key@, read_seq),
                good ==> spec_get_failed_block(self.image(), idx, 0, user_key@, read_seq) == spec_get_failed_block(self.image(), idx, i as int, user_key@, read_seq),
            decreases idx.len() - i,
        {
            let entry = &self.index[i];
            assert(idx[i as int] == entry@);
            if index_may_contain_user_key(entry, user_key) {
                let offset = entry.handle.offset;
                let block: Arc<Block> = match cache.get(table_number, offset) {
                    Some(b) => {
                        proof {
                            if good {
                                assert(cache.cached().dom().contains((table_number, idx[i as int].2.offset)));
                            }
                        }
                        b
                    },
                    None => {
                        let read = read_decoded_block(self.file.as_slice(), entry.handle);
                        let decoded = match read {
                            Ok(b) => b,
                            Err(e) => {
                                assert(spec_block_entries(self.image(), idx[i as int].2) is None);
                                assert(spec_table_get_from(self.image(), idx, i as int, user_key@, read_seq) is None);
                                return Err(e);
                            },
                        };
                        let shared = Arc::new(decoded);
                        let ghost before = cache.cached();
                        cache.insert(table_number, offset, share(&shared));
                        proof {
                            if good {
                                let after = cache.cached();
                                let k = (table_number, offset);
                                assert forall|j: int| 0 <= j < idx.len() && #[trigger] after.dom().contains((table_number, idx[j].2.offset))
                                    implies spec_block_entries(self.image(), idx[j].2) == Some(after[(table_number, idx[j].2.offset)]) by {
                                    if idx[j].2.offset == offset {
                                        if j != i {
                                            assert(idx[j].2 == idx[i as int].2);
                                        }
                                    } else {
                                        assert(before.dom().contains((table_number, idx[j].2.offset)));
                                    }
                                }
                            }
                        }
                        shared
                    },
                };
                proof {
                    if good {
                        assert(spec_block_entries(self.image(), idx[i as int].2) == Some(block@));
                    }
                }
                match find_in_block(&block, user_key, read_seq) {
                    Some(v) => {
                        proof {
                            if good {
                                assert(spec_table_get_from(self.image(), idx, i as int, user_key@, read_seq) == Some(record_opt_view(Some(v))));
                            }
                        }
                        return Ok(Some(v));
                    },
                    None => {},
                }
            }
            i = i + 1;
        }
        Ok(None)
    }

    /// All entries of the table, block after block.
    pub fn entries(&self) -> (r: Result<Vec<(InternalKey, ValueRecord)>>)
        ensures
            match spec_table_entries_from(self.image(), self.index_entries(), 0) {
                Some(es) => r matches Ok(v) && entries_view(v@) == es,
                None => r is Err,
            },
    {
        let ghost idx = self.index_entries();
        let mut out: Vec<(InternalKey, ValueRecord)> = Vec::new();
        let mut i: usize = 0;
        assert(entries_view(out@) =~= Seq::<EntryView>::empty());
        while i < self.index.len()
            invariant
                idx == self.index_entries(),
                i <= idx.len(),
                spec_table_entries_from(self.image(), idx, 0) == match spec_table_entries_from(self.image(), idx, i as int) {
                    Some(rest) => Some(entries_view(out@) + rest),
                    None => None::<Seq<EntryView>>,
                },
            decreases idx.len() - i,
        {
            let block = read_decoded_block(self.file.as_slice(), self.index[i].handle)?;
            let copied = copy_entries(block.entries());
            let ghost before = entries_view(out@);
            let mut more = copied;
            out.append(&mut more);
            proof {
                assert(entries_view(out@) =~= before + block@);
                match spec_table_entries_from(self.image(), idx, i + 1) {
                    Some(rest) => {
                        assert(before + (block@ + rest) =~= before + block@ + rest);
                    },
                    None => {},
                }
            }
            i = i + 1;
        }
        assert(entries_view(out@) + Seq::<EntryView>::empty() =~= entries_view(out@));
        Ok(out)
    }

    /// All entries of the table, block after block, consulting and filling `block_cache`
    /// under `table_number` when `fill_cache` is set. When the cache holds, for this table
    /// number, only the blocks this table's index names, the result is that of
    /// [`SSTableReader::entries`] and the cache keeps holding only such blocks.
    pub fn entries_with_cache(
        &self,
        table_number: u64,
        block_cache: Option<&mut BlockCache>,
        fill_cache: bool,
    ) -> (r: Result<Vec<(InternalKey, ValueRecord)>>)
        requires
            block_cache matches Some(c) ==> c.wf() && (fill_cache ==> c.spec_stats().hits + self.index_entries().len() < u64::MAX
                && c.spec_stats().misses + self.index_entries().len() < u64::MAX),
        ensures
            block_cache is None || !fill_cache ==> match spec_table_entries_from(self.image(), self.index_entries(), 0) {
                Some(es) => r matches Ok(v) && entries_view(v@) == es,
                None => r is Err,
            },
            block_cache matches Some(c) ==> final(c).wf() && final(c).capacity() == c.capacity()
                && final(c).spec_stats().hits <= c.spec_stats().hits + self.index_entries().len()
                && final(c).spec_stats().misses <= c.spec_stats().misses + self.index_entries().len()
                && forall|k: (u64, u64)| #[trigger] final(c).cached().dom().contains(k) && k.0 != table_number
                    ==> c.cached().dom().contains(k) && final(c).cached()[k] == c.cached()[k],
            block_cache matches Some(c) ==> !fill_cache ==> final(c).cached() == c.cached() && final(c).spec_stats() == c.spec_stats(),
            block_cache matches Some(c) ==> fill_cache && offsets_name_one_block(self.index_entries())
                && cache_consistent(c.cached(), table_number, self.image(), self.index_entries())
                ==> cache_consistent(final(c).cached(), table_number, self.image(), self.index_entries())
                && match spec_table_entries_from(self.image(), self.index_entries(), 0) {
                    Some(es) => r matches Ok(v) && entries_view(v@) == es,
                    None => r is Err,
                },
    {
        match block_cache {
            Some(cache) => {
                if fill_cache {
                    self.entries_cached(table_number, cache)
                } else {
                    self.entries()
                }
            },
            None => self.entries(),
        }
    }

    fn entries_cached(&self, table_number: u64, cache: &mut BlockCache) -> (r: Result<Vec<(InternalKey, ValueRecord)>>)
        requires
            old(cache).wf(),
            old(cache).spec_stats().hits + self.index_entries().len() < u64::MAX,
            old(cache).spec_stats().misses + self.index_entries().len() < u64::MAX,
        ensures
            final(cache).wf(),
            final(cache).capacity() == old(cache).capacity(),
            final(cache).spec_stats().hits <= old(cache).spec_stats().hits + self.index_entries().len(),
            final(cache).spec_stats().misses <= old(cache).spec_stats().misses + self.index_entries().len(),
            forall|k: (u64, u64)| #[trigger] final(cache).cached().dom().contains(k) && k.0 != table_number
                ==> old(cache).cached().dom().contains(k) && final(cache).cached()[k] == old(cache).cached()[k],
            offsets_name_one_block(self.index_entries()) && cache_consistent(old(cache).cached(), table_number, self.image(), self.index_entries())
                ==> cache_consistent(final(cache).cached(), table_number, self.image(), self.index_entries())
                && match spec_table_entries_from(self.image(), self.index_entries(), 0) {
                    Some(es) => r matches Ok(v) && entries_view(v@) == es,
                    None => r is Err,
                },
    {
        let ghost idx = self.index_entries();
        let ghost good = offsets_name_one_block(idx) && cache_consistent(old(cache).cached(), table_number, self.image(), idx);
        let mut out: Vec<(InternalKey, ValueRecord)> = Vec::new();
        let mut i: usize = 0;
        assert(entries_view(out@) =~= Seq::<EntryView>::empty());
        while i < self.index.len()
            invariant
                idx == self.index_entries(),
                idx == index_view(self.index@),
                i <= idx.len(),
                cache.wf(),
                cache.capacity() == old(cache).capacity(),
                cache.spec_stats().hits + (idx.len() - i) < u64::MAX,
                cache.spec_stats().misses + (idx.len() - i) < u64::MAX,
                cache.spec_stats().hits <= old(cache).spec_stats().hits + i,
                cache.spec_stats().misses <= old(cache).spec_stats().misses + i,
                forall|k: (u64, u64)| #[trigger] cache.cached().dom().contains(k) && k.0 != table_number
                    ==> old(cache).cached().dom().contains(k) && cache.cached()[k] == old(cache).cached()[k],
                good == (offsets_name_one_block(idx) && cache_consistent(old(cache).cached(), table_number, self.image(), idx)),
                good ==> cache_consistent(cache.cached(), table_number, self.image(), idx),
                good ==> spec_table_entries_from(self.image(), idx, 0) == match spec_table_entries_from(self.image(), idx, i as int) {
                    Some(rest) => Some(entries_view(out@) + rest),
                    None => None::<Seq<EntryView>>,
                },
            decreases idx.len() - i,
        {
            let entry = &self.index[i];
            assert(idx[i as int] == entry@);
            let offset = entry.handle.offset;
            let block: Arc<Block> = match cache.get(table_number, offset) {
                Some(b) => {
                    proof {
                        if good {
                            assert(cache.cached().dom().contains((table_number, idx[i as int].2.offset)));
                        }
                    }
                    b
                },
                None => {
                    let read = read_decoded_block(self.file.as_slice(), entry.handle);
                    let decoded = match read {
                        Ok(b) => b,
                        Err(e) => {
                            assert(spec_block_entries(self.image(), idx[i as int].2) is None);
                            return Err(e);
                        },
                    };
                    let shared = Arc::new(decoded);
                    let ghost before = cache.cached();
                    cache.insert(table_number, offset, share(&shared));
                    proof {
                        if good {
                            let after = cache.cached();
                            assert forall|j: int| 0 <= j < idx.len() && #[trigger] after.dom().contains((table_number, idx[j].2.offset))
                                implies spec_block_entries(self.image(), idx[j].2) == Some(after[(table_number, idx[j].2.offset)]) by {
                                if idx[j].2.offset == offset {
                                    if j != i {
                                        assert(idx[j].2 == idx[i as int].2);
                                    }
                                } else {
                                    assert(before.dom().contains((table_number, idx[j].2.offset)));
                                }
                            }
                        }
                    }
                    shared
                },
            };
            proof {
                if good {
                    assert(spec_block_entries(self.image(), idx[i as int].2) == Some(block@));
                }
            }
            let copied = copy_entries(block.entries());
            let ghost before_out = entries_view(out@);
            let mut more = copied;
            out.append(&mut more);
            proof {
                assert(entries_view(out@) =~= before_out + block@);
                if good {
                    match spec_table_entries_from(self.image(), idx, i + 1) {
                        Some(rest) => {
                            assert(before_out + (block@ + rest) =~= before_out + block@ + rest);
                        },
                        None => {},
                    }
                }
            }
            i = i + 1;
        }
        assert(entries_view(out@) + Seq::<EntryView>::empty() =~= entries_view(out@));
        Ok(out)
    }

    /// An iterator over all entries of the table.
    pub fn iter(&self) -> (r: Result<TableIterator>)
        ensures
            match spec_table_entries_from(self.image(), self.index_entries(), 0) {
                Some(es) => r matches Ok(it) && it.remaining() == es,
                None => r is Err,
            },
    {
        let entries = self.entries()?;
        let it = TableIterator { entries, index: 0 };
        assert(entries_view(it.entries@).skip(0) =~= entries_view(it.entries@));
        Ok(it)
    }

    pub fn smallest_key(&self) -> (r: Option<&InternalKey>)
        ensures
            opt_key_view(match r { Some(k) => Some(*k), None => None }) == self.props().1,
    {
        match &self.properties.smallest_key {
            Some(k) => Some(k),
            None => None,
        }
    }

    pub fn largest_key(&self) -> (r: Option<&InternalKey>)
        ensures
            opt_key_view(match r { Some(k) => Some(*k), None => None }) == self.props().2,
    {
        match &self.properties.largest_key {
            Some(k) => Some(k),
            None => None,
        }
    }

    /// Whether the table's filter lets `user_key` through.
    pub fn might_contain(&self, user_key: &[u8]) -> (r: bool)
        requires
            self.wf(),
        ensures
            r == spec_may_contain(self.props().3, user_key@),
    {
        self.filter.may_contain(user_key)
    }
}

/// The entries of a table, handed out one at a time.
#[derive(Debug)]
pub struct TableIterator {
    entries: Vec<(InternalKey, ValueRecord)>,
    index: usize,
}

impl TableIterator {
    /// The entries still to come.
    pub closed spec fn remaining(&self) -> Seq<EntryView> {
        if self.index <= self.entries.len() {
            entries_view(self.entries@).skip(self.index as int)
        } else {
            Seq::empty()
        }
    }

    /// The next entry, if any.
    pub fn next_entry(&mut self) -> (r: Option<(InternalKey, ValueRecord)>)
        ensures
            match r {
                Some(e) => old(self).remaining().len() > 0 && (e.0@, e.1@) == old(self).remaining()[0]
                    && final(self).remaining() == old(self).remaining().drop_first(),
                None => old(self).remaining().len() == 0 && final(self).remaining() == old(self).remaining(),
            },
    {
        if self.index < self.entries.len() {
            let e = &self.entries[self.index];
            let item = (e.0.duplicate(), e.1.duplicate());
            assert(old(self).remaining()[0] == entries_view(self.entries@)[self.index as int]);
            self.index = self.index + 1;
            assert(self.remaining() =~= old(self).remaining().drop_first());
            Some(item)
        } else {
            None
        }
    }
}

} // verus!
