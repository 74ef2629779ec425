//! Building SSTable images: data blocks with checksummed trailers, a properties block,
//! an index block and a footer.
use vstd::prelude::*;

use crate::batch::low32_of;
use crate::error::Result;
use crate::key::{InternalKey, InternalKeyView};
use crate::memtable::{EntryView, ValueRecord};
use crate::table::block_builder::{spec_block_data, spec_finish_block, spec_restarts, BlockBuilder};
use crate::table::filter::TableFilter;
use crate::table::format::{
    encode_footer, encode_internal_key, spec_encode_footer, spec_encode_internal_key, BlockHandle,
    CompressionType, BLOCK_TRAILER_SIZE,
};
use crate::table::properties::{opt_key_view, spec_encode_properties, TableProperties};
use crate::util::bloom::{spec_bloom_filter, spec_may_contain};
use crate::util::coding::{le_bytes, put_fixed, put_var_u32, put_var_u64, spec_varint};
use crate::util::crc::{crc32c, spec_crc32c};

verus! {

/// Entries between restart points in data blocks.
pub const RESTART_INTERVAL: usize = 16;

/// One index entry: the first and last keys of a data block and where it lies.
#[derive(Debug, Clone)]
pub struct IndexEntry {
    pub first_key: InternalKey,
    pub last_key: InternalKey,
    pub handle: BlockHandle,
}

/// The abstract value of an index entry.
pub type IndexEntryView = (InternalKeyView, InternalKeyView, BlockHandle);

impl View for IndexEntry {
    type V = IndexEntryView;

    open spec fn view(&self) -> IndexEntryView {
        (self.first_key@, self.last_key@, self.handle)
    }
}

/// The abstract value of a list of index entries.
pub open spec fn index_view(es: Seq<IndexEntry>) -> Seq<IndexEntryView> {
    es.map_values(|e: IndexEntry| e@)
}

/// One encoded index entry.
pub open spec fn spec_encode_index_entry(e: IndexEntryView) -> Seq<u8> {
    spec_encode_internal_key(e.0) + spec_encode_internal_key(e.1) + spec_varint(e.2.offset as nat)
        + spec_varint(e.2.size as nat)
}

/// Encoded index entries, one after the other.
pub open spec fn spec_encode_index_entries_body(es: Seq<IndexEntryView>) -> Seq<u8>
    decreases es.len(),
{
    if es.len() == 0 {
        Seq::empty()
    } else {
        spec_encode_index_entries_body(es.drop_last()) + spec_encode_index_entry(es.last())
    }
}

/// The index block: the entry count, then the entries.
pub open spec fn spec_encode_index(es: Seq<IndexEntryView>) -> Seq<u8> {
    spec_varint(crate::batch::low32(es.len())) + spec_encode_index_entries_body(es)
}

/// Encodes an index block.
pub fn encode_index_entries(entries: &[IndexEntry]) -> (r: Vec<u8>)
    ensures
        r@ == spec_encode_index(index_view(entries@)),
{
    let ghost iv = index_view(entries@);
    let mut dst: Vec<u8> = Vec::new();
    put_var_u32(&mut dst, low32_of(entries.len()));
    let ghost head = dst@;
    let mut i: usize = 0;
    while i < entries.len()
        invariant
            iv == index_view(entries@),
            i <= entries@.len(),
            dst@ == head + spec_encode_index_entries_body(iv.take(i as int)),
        decreases entries@.len() - i,
    {
        let e = &entries[i];
        let ghost before = dst@;
        encode_internal_key(&e.first_key, &mut dst);
        encode_internal_key(&e.last_key, &mut dst);
        put_var_u64(&mut dst, e.handle.offset);
        put_var_u64(&mut dst, e.handle.size);
        proof {
            assert(iv.take(i + 1).drop_last() =~= iv.take(i as int));
            assert(iv.take(i + 1).last() == e@);
            assert(dst@ =~= before + spec_encode_index_entry(e@));
        }
        i = i + 1;
    }
    assert(iv.take(entries@.len() as int) =~= iv);
    dst
}

/// The five-byte trailer after a stored block: compression byte, then the CRC-32C of
/// that byte and the block.
pub open spec fn spec_block_trailer(block: Seq<u8>) -> Seq<u8> {
    seq![CompressionType::NoCompression.spec_code()] + le_bytes(
        spec_crc32c(seq![CompressionType::NoCompression.spec_code()] + block) as nat,
        4,
    )
}

/// Builds an SSTable image in memory.
pub struct SSTableBuilder {
    out: Vec<u8>,
    block_size: usize,
    current_block: BlockBuilder,
    current_block_first_key: Option<InternalKey>,
    index_entries: Vec<IndexEntry>,
    smallest_key: Option<InternalKey>,
    largest_key: Option<InternalKey>,
    filter_keys: Vec<Vec<u8>>,
    num_entries: u64,
    blocks: Ghost<Seq<Seq<EntryView>>>,
}

/// Whether `w` holds, at `h`, the finished block of `es` followed by its trailer.
pub open spec fn block_at(w: Seq<u8>, h: BlockHandle, es: Seq<EntryView>) -> bool {
    let b = spec_finish_block(es, RESTART_INTERVAL as nat);
    &&& es.len() > 0
    &&& h.size == b.len()
    &&& h.offset + h.size + 5 <= w.len()
    &&& w.subrange(h.offset as int, h.offset + h.size) == b
    &&& w.subrange(h.offset + h.size, h.offset + h.size + 5) == spec_block_trailer(b)
}

/// Appending bytes keeps every block where it was.
pub proof fn lemma_block_at_extend(w: Seq<u8>, x: Seq<u8>, h: BlockHandle, es: Seq<EntryView>)
    requires
        block_at(w, h, es),
    ensures
        block_at(w + x, h, es),
{
    assert((w + x).subrange(h.offset as int, h.offset + h.size) =~= w.subrange(h.offset as int, h.offset + h.size));
    assert((w + x).subrange(h.offset + h.size, h.offset + h.size + 5) =~= w.subrange(h.offset + h.size, h.offset + h.size + 5));
}

/// The entries of a list of blocks, one block after another.
pub open spec fn flatten(bs: Seq<Seq<EntryView>>) -> Seq<EntryView>
    decreases bs.len(),
{
    if bs.len() == 0 {
        Seq::empty()
    } else {
        flatten(bs.drop_last()) + bs.last()
    }
}

/// Whether the written bytes hold the blocks the index names, each with its first and
/// last key.
pub open spec fn blocks_written(w: Seq<u8>, index: Seq<IndexEntryView>, blocks: Seq<Seq<EntryView>>) -> bool {
    &&& index.len() == blocks.len()
    &&& forall|k: int| 0 <= k < index.len() ==> #[trigger] block_at(w, index[k].2, blocks[k])
        && index[k].0 == blocks[k][0].0 && index[k].1 == blocks[k].last().0
}

impl SSTableBuilder {
    /// The entries of the blocks written so far, block by block.
    pub closed spec fn blocks(&self) -> Seq<Seq<EntryView>> {
        self.blocks@
    }

    /// The written bytes hold the blocks the index names.
    pub proof fn lemma_wf_blocks(&self)
        requires
            self.wf(),
        ensures
            blocks_written(self.written(), self.index(), self.blocks()),
    {
    }

    /// Every entry added so far, in order.
    pub open spec fn all_added(&self) -> Seq<EntryView> {
        flatten(self.blocks()) + self.pending()
    }

    /// The bytes written so far.
    pub closed spec fn written(&self) -> Seq<u8> {
        self.out@
    }

    /// The entries of the block being filled.
    pub closed spec fn pending(&self) -> Seq<EntryView> {
        self.current_block.added()
    }

    /// The index entries of the blocks written so far.
    pub closed spec fn index(&self) -> Seq<IndexEntryView> {
        index_view(self.index_entries@)
    }

    /// The user keys the filter will be built from.
    pub closed spec fn filter_keys(&self) -> Seq<Seq<u8>> {
        self.filter_keys@.map_values(|k: Vec<u8>| k@)
    }

    pub closed spec fn spec_num_entries(&self) -> u64 {
        self.num_entries
    }

    pub closed spec fn spec_smallest(&self) -> Option<InternalKeyView> {
        opt_key_view(self.smallest_key)
    }

    pub closed spec fn spec_largest(&self) -> Option<InternalKeyView> {
        opt_key_view(self.largest_key)
    }

    pub closed spec fn spec_block_size(&self) -> usize {
        self.block_size
    }

    /// The bytes written and the index once the pending block is written out.
    pub open spec fn flushed(&self) -> (Seq<u8>, Seq<IndexEntryView>) {
        let p = self.pending();
        if p.len() > 0 {
            let b = spec_finish_block(p, RESTART_INTERVAL as nat);
            (
                self.written() + b + spec_block_trailer(b),
                self.index().push((p[0].0, p.last().0, BlockHandle { offset: self.written().len() as u64, size: b.len() as u64 })),
            )
        } else {
            (self.written(), self.index())
        }
    }

    /// The table image `finish` produces from this state.
    pub open spec fn spec_image(&self) -> Seq<u8> {
        let (w, index) = self.flushed();
        let props = (self.spec_num_entries(), self.spec_smallest(), self.spec_largest(), spec_bloom_filter(self.filter_keys()));
        let pb = spec_encode_properties(props);
        let ph = BlockHandle { offset: w.len() as u64, size: pb.len() as u64 };
        let w2 = w + pb + spec_block_trailer(pb);
        let ib = spec_encode_index(index);
        let ih = BlockHandle { offset: w2.len() as u64, size: ib.len() as u64 };
        w2 + ib + spec_block_trailer(ib) + spec_encode_footer(ph, ih)
    }

    pub closed spec fn wf(&self) -> bool {
        &&& self.current_block.wf()
        &&& self.current_block.interval() == RESTART_INTERVAL
        &&& self.block_size >= 1
        &&& (self.current_block.added().len() > 0 <==> self.current_block_first_key is Some)
        &&& self.current_block_first_key matches Some(k) ==> k@ == self.current_block.added()[0].0
        &&& self.current_block.added().len() > 0 ==> (self.largest_key matches Some(k) && k@ == self.current_block.added().last().0)
        &&& blocks_written(self.out@, index_view(self.index_entries@), self.blocks@)
    }

    /// A builder writing blocks of about `block_size` bytes (at least 1).
    pub fn new(block_size: usize) -> (b: Self)
        ensures
            b.wf(),
            b.written() == Seq::<u8>::empty(),
            b.pending() == Seq::<EntryView>::empty(),
            b.index() == Seq::<IndexEntryView>::empty(),
            b.filter_keys() == Seq::<Seq<u8>>::empty(),
            b.spec_num_entries() == 0,
            b.spec_smallest() is None,
            b.spec_largest() is None,
            b.spec_block_size() == if block_size == 0 { 1 } else { block_size },
            b.blocks() == Seq::<Seq<EntryView>>::empty(),
            b.all_added() == Seq::<EntryView>::empty(),
    {
        let b = SSTableBuilder {
            out: Vec::new(),
            block_size: if block_size == 0 { 1 } else { block_size },
            current_block: BlockBuilder::new(RESTART_INTERVAL),
            current_block_first_key: None,
            index_entries: Vec::new(),
            smallest_key: None,
            largest_key: None,
            filter_keys: Vec::new(),
            num_entries: 0,
            blocks: Ghost(Seq::empty()),
        };
        assert(b.index() =~= Seq::<IndexEntryView>::empty());
        assert(b.filter_keys() =~= Seq::<Seq<u8>>::empty());
        b
    }

    /// Adds an entry; writes the current block out once it reaches the block size.
    pub fn add(&mut self, key: InternalKey, value: &ValueRecord) -> (r: Result<()>)
        requires
            old(self).wf(),
        ensures
            r is Ok,
            final(self).wf(),
            final(self).spec_block_size() == old(self).spec_block_size(),
            final(self).filter_keys() == old(self).filter_keys().push(key@.0),
            final(self).spec_num_entries() == vstd::wrapping::u64_specs::wrapping_add(old(self).spec_num_entries(), 1),
            final(self).spec_smallest() == if old(self).spec_smallest() is None { Some(key@) } else { old(self).spec_smallest() },
            final(self).spec_largest() == Some(key@),
            final(self).all_added() == old(self).all_added().push((key@, value@)),
            ({
                let p = old(self).pending().push((key@, value@));
                let full = (spec_block_data(p, RESTART_INTERVAL as nat).len() + 4 * spec_restarts(p, RESTART_INTERVAL as nat).len() + 4) as int
                    % (usize::MAX as int + 1) >= old(self).spec_block_size();
                if full {
                    &&& final(self).pending() == Seq::<EntryView>::empty()
                    &&& final(self).written() == old(self).written() + spec_finish_block(p, RESTART_INTERVAL as nat)
                        + spec_block_trailer(spec_finish_block(p, RESTART_INTERVAL as nat))
                    &&& final(self).index() == old(self).index().push(
                        (p[0].0, p.last().0, BlockHandle { offset: old(self).written().len() as u64, size: spec_finish_block(p, RESTART_INTERVAL as nat).len() as u64 }),
                    )
                } else {
                    &&& final(self).pending() == p
                    &&& final(self).written() == old(self).written()
                    &&& final(self).index() == old(self).index()
                }
            }),
    {
        if self.current_block_first_key.is_none() {
            self.current_block_first_key = Some(key.duplicate());
        }
        if self.smallest_key.is_none() {
            self.smallest_key = Some(key.duplicate());
        }
        self.largest_key = Some(key.duplicate());
        let ghost fk = self.filter_keys@;
        self.filter_keys.push(vstd::slice::slice_to_vec(key.user_key()));
        assert(self.filter_keys() =~= old(self).filter_keys().push(key@.0));
        let ghost k = key@;
        self.current_block.add(key, value);
        self.num_entries = self.num_entries.wrapping_add(1);
        if self.current_block.approximate_size() >= self.block_size {
            self.flush_current_block();
        }
        Ok(())
    }

    /// Writes the pending block, if any, and records it in the index.
    fn flush_current_block(&mut self)
        requires
            old(self).wf(),
        ensures
            final(self).wf(),
            final(self).spec_block_size() == old(self).spec_block_size(),
            final(self).filter_keys() == old(self).filter_keys(),
            final(self).spec_num_entries() == old(self).spec_num_entries(),
            final(self).spec_smallest() == old(self).spec_smallest(),
            final(self).spec_largest() == old(self).spec_largest(),
            final(self).pending() == Seq::<EntryView>::empty(),
            final(self).all_added() == old(self).all_added(),
            final(self).blocks() == if old(self).pending().len() > 0 { old(self).blocks().push(old(self).pending()) } else { old(self).blocks() },
            ({
                let p = old(self).pending();
                if p.len() > 0 {
                    &&& final(self).written() == old(self).written() + spec_finish_block(p, RESTART_INTERVAL as nat)
                        + spec_block_trailer(spec_finish_block(p, RESTART_INTERVAL as nat))
                    &&& final(self).index() == old(self).index().push(
                        (p[0].0, p.last().0, BlockHandle { offset: old(self).written().len() as u64, size: spec_finish_block(p, RESTART_INTERVAL as nat).len() as u64 }),
                    )
                } else {
                    &&& final(self).written() == old(self).written()
                    &&& final(self).index() == old(self).index()
                }
            }),
    {
        if self.current_block.is_empty() {
            return;
        }
        let first_key = self.current_block_first_key.take().unwrap();
        let last_key = self.largest_key.as_ref().unwrap().duplicate();
        let mut block_builder = BlockBuilder::new(RESTART_INTERVAL);
        std::mem::swap(&mut block_builder, &mut self.current_block);
        let ghost p = block_builder.added();
        let block = block_builder.finish();
        let ghost w0 = self.out@;
        assert(w0.len() == self.out.len());
        let handle = self.write_block(block.as_slice());
        let ghost before = self.index_entries@;
        self.index_entries.push(IndexEntry { first_key, last_key, handle });
        assert(self.index() =~= index_view(before).push((first_key@, last_key@, handle)));
        proof {
            let old_blocks = self.blocks@;
            let x = block@ + spec_block_trailer(block@);
            crate::util::coding::lemma_le_bytes_len(spec_crc32c(seq![CompressionType::NoCompression.spec_code()] + block@) as nat, 4);
            assert(self.out@ =~= w0 + x);
            assert forall|k: int| 0 <= k < old_blocks.len() implies #[trigger] block_at(self.out@, index_view(before)[k].2, old_blocks[k]) by {
                lemma_block_at_extend(w0, x, index_view(before)[k].2, old_blocks[k]);
            }
            assert(handle.offset == w0.len());
            assert(block@.len() == block.len());
            assert(handle.size == block@.len());
            assert(self.out@.len() == w0.len() + block@.len() + 5);
            crate::util::coding::lemma_le_bytes_len(spec_crc32c(seq![CompressionType::NoCompression.spec_code()] + block@) as nat, 4);
            assert(spec_block_trailer(block@).len() == 5);
            assert(self.out@.subrange(handle.offset as int, handle.offset + handle.size) =~= block@);
            assert(self.out@.subrange(handle.offset + handle.size, handle.offset + handle.size + 5) =~= spec_block_trailer(block@));
            self.blocks = Ghost(old_blocks.push(p));
            assert(flatten(self.blocks@) =~= flatten(old_blocks) + p) by {
                assert(self.blocks@.drop_last() =~= old_blocks);
            }
            let n = old_blocks.len() as int;
            assert(block@ == spec_finish_block(p, RESTART_INTERVAL as nat));
            assert(p.len() > 0);
            assert(block_at(self.out@, handle, p));
            assert(self.index()[n] == (first_key@, last_key@, handle));
            assert forall|k: int| 0 <= k < self.blocks@.len() implies #[trigger] block_at(self.out@, self.index()[k].2, self.blocks@[k])
                && self.index()[k].0 == self.blocks@[k][0].0 && self.index()[k].1 == self.blocks@[k].last().0 by {
                if k < n {
                    assert(self.index()[k] == index_view(before)[k]);
                    assert(self.blocks@[k] == old_blocks[k]);
                    assert(blocks_written(w0, index_view(before), old_blocks));
                    assert(block_at(w0, index_view(before)[k].2, old_blocks[k]));
                    assert(block_at(self.out@, index_view(before)[k].2, old_blocks[k]));
                    assert(index_view(before)[k].0 == old_blocks[k][0].0);
                } else {
                    assert(self.blocks@[k] == p);
                }
            }
        }
    }

    /// Writes a block with its trailer; gives where it lies.
    fn write_block(&mut self, block: &[u8]) -> (h: BlockHandle)
        ensures
            final(self).out@ == old(self).out@ + block@ + spec_block_trailer(block@),
            h == (BlockHandle { offset: old(self).out@.len() as u64, size: block@.len() as u64 }),
            final(self).current_block == old(self).current_block,
            final(self).current_block_first_key == old(self).current_block_first_key,
            final(self).index_entries == old(self).index_entries,
            final(self).smallest_key == old(self).smallest_key,
            final(self).largest_key == old(self).largest_key,
            final(self).filter_keys == old(self).filter_keys,
            final(self).num_entries == old(self).num_entries,
            final(self).block_size == old(self).block_size,
            final(self).blocks == old(self).blocks,
    {
        let handle = BlockHandle::new(self.out.len() as u64, block.len() as u64);
        let compression = CompressionType::NoCompression.code();
        let mut checksum_input: Vec<u8> = Vec::new();
        checksum_input.push(compression);
        checksum_input.extend_from_slice(block);
        let checksum = crc32c(checksum_input.as_slice());
        self.out.extend_from_slice(block);
        self.out.push(compression);
        put_fixed(&mut self.out, checksum as u64, 4);
        proof {
            assert(checksum_input@ =~= seq![CompressionType::NoCompression.spec_code()] + block@);
            assert(self.out@ =~= old(self).out@ + block@ + spec_block_trailer(block@));
        }
        handle
    }

    /// Writes the last block, the properties block, the index block and the footer;
    /// gives the whole table image.
    pub fn finish(self) -> (r: Result<Vec<u8>>)
        requires
            self.wf(),
        ensures
            r matches Ok(image) && image@ == self.spec_image(),
    {
        let ghost start = self;
        let mut this = self;
        this.finish_into()
    }

    fn finish_into(&mut self) -> (r: Result<Vec<u8>>)
        requires
            old(self).wf(),
        ensures
            r matches Ok(image) && image@ == old(self).spec_image(),
    {
        let ghost start = *self;
        self.flush_current_block();
        let filter = TableFilter::from_keys(self.filter_keys.as_slice());
        let properties = TableProperties {
            num_entries: self.num_entries,
            smallest_key: match &self.smallest_key {
                Some(k) => Some(k.duplicate()),
                None => None,
            },
            largest_key: match &self.largest_key {
                Some(k) => Some(k.duplicate()),
                None => None,
            },
            filter,
        };
        let properties_block = properties.encode();
        let ghost data = self.out@;
        let properties_handle = self.write_block(properties_block.as_slice());
        let index_block = encode_index_entries(self.index_entries.as_slice());
        let ghost with_props = self.out@;
        let index_handle = self.write_block(index_block.as_slice());
        let footer = encode_footer(properties_handle, index_handle);
        self.out.extend_from_slice(footer.as_slice());
        proof {
            assert(properties@ == (start.spec_num_entries(), start.spec_smallest(), start.spec_largest(), spec_bloom_filter(start.filter_keys())));
            assert(self.out@ =~= start.spec_image());
        }
        let mut image: Vec<u8> = Vec::new();
        std::mem::swap(&mut image, &mut self.out);
        Ok(image)
    }
}

} // verus!
