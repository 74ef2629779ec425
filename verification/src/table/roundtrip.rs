//! What a built table reads back as: opening the image a builder finishes gives the
//! builder's index and properties, and reading all its blocks gives every entry added,
//! in order.
use vstd::prelude::*;

use crate::batch::low32;
use crate::memtable::EntryView;
use crate::table::block::{block_entries_fit, lemma_block_roundtrip, stored_entry};
use crate::table::block_builder::{spec_finish_block, spec_restarts};
use crate::table::builder::{
    block_at, blocks_written, flatten, spec_block_trailer, spec_encode_index, spec_encode_index_entries_body,
    spec_encode_index_entry, IndexEntryView, SSTableBuilder, RESTART_INTERVAL,
};
use crate::table::format::{lemma_footer_roundtrip, lemma_internal_key_roundtrip, spec_decode_footer, spec_encode_footer, BlockHandle, CompressionType};
use crate::table::properties::{lemma_properties_roundtrip, properties_fit, spec_decode_properties, spec_encode_properties, PropertiesView};
use crate::table::reader::{
    blocks_within_index, lemma_table_get_reads_entries, spec_block_entries, spec_decode_index, spec_decode_index_entries,
    spec_decode_index_entry, spec_open_table, spec_read_block, spec_table_entries_from, spec_table_get_from,
};
use crate::iterator::storage_iterator::sorted_nonstrict;
use crate::key::{bytes_lt, lemma_bytes_lt_irreflexive};
use crate::memtable::first_visible;
use crate::util::bloom::spec_bloom_filter;
use crate::util::coding::{
    le_bytes, lemma_get_var_u32_roundtrip, lemma_get_var_u64_roundtrip, lemma_le_bytes_len, lemma_le_roundtrip,
    max_u32, max_u64, pow256, spec_varint,
};
use crate::util::crc::spec_crc32c;

verus! {

proof fn lemma_pow256_4()
    ensures
        pow256(4) == 0x1_0000_0000,
{
    reveal_with_fuel(pow256, 5);
}

/// A block written with its trailer reads back as itself.
pub proof fn lemma_read_stored_block(file: Seq<u8>, h: BlockHandle, b: Seq<u8>)
    requires
        h.size == b.len(),
        h.offset + h.size + 5 <= file.len(),
        file.subrange(h.offset as int, h.offset + h.size) == b,
        file.subrange(h.offset + h.size, h.offset + h.size + 5) == spec_block_trailer(b),
    ensures
        spec_read_block(file, h) == Some(b),
{
    let end = (h.offset + h.size) as int;
    let code = CompressionType::NoCompression.spec_code();
    let crc = spec_crc32c(seq![code] + b);
    lemma_pow256_4();
    lemma_le_roundtrip(crc as nat, 4);
    let t = file.subrange(end, end + 5);
    assert(t[0] == file[end]);
    assert(spec_block_trailer(b)[0] == code);
    assert(file.subrange(end + 1, end + 5) =~= t.subrange(1, 5));
    assert(spec_block_trailer(b).subrange(1, 5) =~= le_bytes(crc as nat, 4));
    assert(file[end] == code);
}

/// One encoded index entry, followed by anything, decodes back.
proof fn lemma_index_entry_roundtrip(q: Seq<u8>, e: IndexEntryView, rest: Seq<u8>)
    requires
        e.0.0.len() <= max_u32(),
        e.1.0.len() <= max_u32(),
    ensures
        spec_decode_index_entry(q + spec_encode_index_entry(e) + rest, q.len()) == Some((e, q.len() + spec_encode_index_entry(e).len())),
{
    let k1 = crate::table::format::spec_encode_internal_key(e.0);
    let k2 = crate::table::format::spec_encode_internal_key(e.1);
    let v1 = spec_varint(e.2.offset as nat);
    let v2 = spec_varint(e.2.size as nat);
    let s = q + spec_encode_index_entry(e) + rest;
    assert(s =~= q + k1 + (k2 + v1 + v2 + rest));
    lemma_internal_key_roundtrip(q, e.0, k2 + v1 + v2 + rest);
    assert(s =~= (q + k1) + k2 + (v1 + v2 + rest));
    lemma_internal_key_roundtrip(q + k1, e.1, v1 + v2 + rest);
    assert(s =~= (q + k1 + k2) + v1 + (v2 + rest));
    lemma_get_var_u64_roundtrip(q + k1 + k2, e.2.offset as nat, v2 + rest);
    assert(s =~= (q + k1 + k2 + v1) + v2 + rest);
    lemma_get_var_u64_roundtrip(q + k1 + k2 + v1, e.2.size as nat, rest);
    let p1 = q.len() + k1.len();
    let p2 = p1 + k2.len();
    let p3 = p2 + v1.len();
    let p4 = p3 + v2.len();
    assert(crate::table::format::spec_decode_internal_key(s, q.len()) == Some((e.0, p1)));
    assert(crate::table::format::spec_decode_internal_key(s, p1) == Some((e.1, p2)));
    assert(crate::util::coding::spec_get_var(s, p2, 10, max_u64()) == Some((e.2.offset as nat, p3)));
    assert(crate::util::coding::spec_get_var(s, p3, 10, max_u64()) == Some((e.2.size as nat, p4)));
    assert(spec_encode_index_entry(e).len() == k1.len() + k2.len() + v1.len() + v2.len());
    assert(spec_decode_index_entry(s, q.len()) == Some((e, p4))) by {
        reveal(spec_decode_index_entry);
    }
}

/// Encoded index entries decode back, wherever they start.
proof fn lemma_index_entries_all(q: Seq<u8>, es: Seq<IndexEntryView>, rest: Seq<u8>)
    requires
        forall|i: int| 0 <= i < es.len() ==> (#[trigger] es[i]).0.0.len() <= max_u32() && es[i].1.0.len() <= max_u32(),
    ensures
        spec_decode_index_entries(q + spec_encode_index_entries_body(es) + rest, q.len(), es.len()) == Some(
            (es, q.len() + spec_encode_index_entries_body(es).len()),
        ),
    decreases es.len(),
{
    if es.len() > 0 {
        let prev = es.drop_last();
        let last = es.last();
        let bp = spec_encode_index_entries_body(prev);
        let el = spec_encode_index_entry(last);
        assert forall|i: int| 0 <= i < prev.len() implies (#[trigger] prev[i]).0.0.len() <= max_u32() && prev[i].1.0.len() <= max_u32() by {
            assert(prev[i] == es[i]);
        }
        lemma_index_entries_all(q, prev, el + rest);
        assert(spec_encode_index_entries_body(es) == bp + el);
        let s = q + (bp + el) + rest;
        assert(s =~= q + bp + (el + rest));
        assert(spec_decode_index_entries(s, q.len(), prev.len()) == Some((prev, q.len() + bp.len())));
        let q2 = q + bp;
        assert(s =~= q2 + el + rest);
        lemma_index_entry_roundtrip(q2, last, rest);
        assert(spec_decode_index_entry(s, q2.len()) == Some((last, q2.len() + el.len())));
        assert(prev.push(last) =~= es);
    } else {
        assert(es =~= Seq::<IndexEntryView>::empty());
    }
}

/// An encoded index block decodes back to its entries.
pub proof fn lemma_index_roundtrip(es: Seq<IndexEntryView>)
    requires
        es.len() <= max_u32(),
        forall|i: int| 0 <= i < es.len() ==> (#[trigger] es[i]).0.0.len() <= max_u32() && es[i].1.0.len() <= max_u32(),
    ensures
        spec_decode_index(spec_encode_index(es)) == Some(es),
{
    let n = es.len();
    assert(low32(n) == n);
    let head = spec_varint(n);
    let body = spec_encode_index_entries_body(es);
    let s = spec_encode_index(es);
    assert(s =~= Seq::<u8>::empty() + head + body);
    lemma_get_var_u32_roundtrip(Seq::empty(), n, body);
    lemma_index_entries_all(head, es, Seq::empty());
    assert(head + body + Seq::<u8>::empty() =~= s);
}

/// The entries of blocks `i` onwards, one block after another.
pub open spec fn flatten_from(bs: Seq<Seq<EntryView>>, i: int) -> Seq<EntryView>
    decreases bs.len() - i,
{
    if i < 0 || i >= bs.len() {
        Seq::empty()
    } else {
        bs[i] + flatten_from(bs, i + 1)
    }
}

proof fn lemma_flatten_from_push(bs: Seq<Seq<EntryView>>, x: Seq<EntryView>, i: int)
    requires
        0 <= i <= bs.len(),
    ensures
        flatten_from(bs.push(x), i) == flatten_from(bs, i) + x,
    decreases bs.len() - i,
{
    if i < bs.len() {
        lemma_flatten_from_push(bs, x, i + 1);
        assert(bs.push(x)[i] == bs[i]);
        assert(flatten_from(bs.push(x), i) =~= bs[i] + (flatten_from(bs, i + 1) + x));
    } else {
        assert(flatten_from(bs.push(x), i + 1) =~= Seq::<EntryView>::empty());
        assert(flatten_from(bs.push(x), i) =~= x);
    }
}

proof fn lemma_flatten_eq(bs: Seq<Seq<EntryView>>)
    ensures
        flatten(bs) == flatten_from(bs, 0),
    decreases bs.len(),
{
    if bs.len() > 0 {
        lemma_flatten_eq(bs.drop_last());
        lemma_flatten_from_push(bs.drop_last(), bs.last(), 0);
        assert(bs.drop_last().push(bs.last()) =~= bs);
    }
}

/// Every entry of block `k` is an entry of the flattened blocks, and the flattened
/// blocks are at least as many entries as there are non-empty blocks.
proof fn lemma_flatten_members(bs: Seq<Seq<EntryView>>)
    requires
        forall|k: int| 0 <= k < bs.len() ==> (#[trigger] bs[k]).len() > 0,
    ensures
        forall|k: int, j: int| 0 <= k < bs.len() && 0 <= j < bs[k].len() ==> flatten(bs).contains(#[trigger] bs[k][j]),
        forall|k: int| 0 <= k < bs.len() ==> (#[trigger] bs[k]).len() <= flatten(bs).len(),
        bs.len() <= flatten(bs).len(),
    decreases bs.len(),
{
    if bs.len() > 0 {
        let p = bs.drop_last();
        assert forall|k: int| 0 <= k < p.len() implies (#[trigger] p[k]).len() > 0 by {
            assert(p[k] == bs[k]);
        }
        lemma_flatten_members(p);
        let f = flatten(bs);
        assert(f == flatten(p) + bs.last());
        assert forall|k: int, j: int| 0 <= k < bs.len() && 0 <= j < bs[k].len() implies f.contains(#[trigger] bs[k][j]) by {
            if k < p.len() {
                assert(p[k] == bs[k]);
                assert(flatten(p).contains(p[k][j]));
                let m = choose|m: int| 0 <= m < flatten(p).len() && flatten(p)[m] == p[k][j];
                assert(f[m] == flatten(p)[m]);
            } else {
                assert(f[flatten(p).len() + j] == bs.last()[j]);
            }
        }
        assert forall|k: int| 0 <= k < bs.len() implies (#[trigger] bs[k]).len() <= f.len() by {
            if k < p.len() {
                assert(p[k] == bs[k]);
            }
        }
    }
}

/// The blocks of a finished table: those written, then the pending one if any.
pub open spec fn final_blocks(b: SSTableBuilder) -> Seq<Seq<EntryView>> {
    if b.pending().len() > 0 {
        b.blocks().push(b.pending())
    } else {
        b.blocks()
    }
}

/// The properties `finish` records.
pub open spec fn final_properties(b: SSTableBuilder) -> PropertiesView {
    (b.spec_num_entries(), b.spec_smallest(), b.spec_largest(), spec_bloom_filter(b.filter_keys()))
}

/// Reading blocks `i` onwards of a table whose blocks all read back.
proof fn lemma_entries_from(file: Seq<u8>, idx: Seq<IndexEntryView>, bs: Seq<Seq<EntryView>>, i: int)
    requires
        blocks_written(file, idx, bs),
        0 <= i <= idx.len(),
        forall|k: int| 0 <= k < bs.len() ==> block_entries_fit(#[trigger] bs[k]) && bs[k].len() <= max_u32()
            && bs[k].len() * 4 <= usize::MAX,
    ensures
        spec_table_entries_from(file, idx, i) == Some(flatten_from(bs, i).map_values(|e: EntryView| stored_entry(e))),
    decreases idx.len() - i,
{
    if i < idx.len() {
        lemma_entries_from(file, idx, bs, i + 1);
        let es = bs[i];
        let blk = spec_finish_block(es, RESTART_INTERVAL as nat);
        assert(block_at(file, idx[i].2, es));
        lemma_read_stored_block(file, idx[i].2, blk);
        crate::table::block::lemma_restarts_len(es, RESTART_INTERVAL as nat);
        lemma_block_roundtrip(es, RESTART_INTERVAL as nat);
        assert(spec_block_entries(file, idx[i].2) == Some(es.map_values(|e: EntryView| stored_entry(e))));
        assert(flatten_from(bs, i).map_values(|e: EntryView| stored_entry(e)) =~= es.map_values(|e: EntryView| stored_entry(e))
            + flatten_from(bs, i + 1).map_values(|e: EntryView| stored_entry(e)));
    } else {
        assert(flatten_from(bs, i).map_values(|e: EntryView| stored_entry(e)) =~= Seq::<EntryView>::empty());
    }
}

/// The written bytes and index once the pending block is flushed hold every block.
proof fn lemma_flushed_blocks(b: SSTableBuilder)
    requires
        b.wf(),
        b.spec_image().len() <= u64::MAX,
    ensures
        blocks_written(b.flushed().0, b.flushed().1, final_blocks(b)),
        flatten(final_blocks(b)) == b.all_added(),
        forall|k: int| 0 <= k < final_blocks(b).len() ==> (#[trigger] final_blocks(b)[k]).len() > 0,
{
    let w = b.written();
    let p = b.pending();
    assert(blocks_written(w, b.index(), b.blocks())) by {
        b.lemma_wf_blocks();
    }
    if p.len() > 0 {
        let blk = spec_finish_block(p, RESTART_INTERVAL as nat);
        let x = blk + spec_block_trailer(blk);
        let h = BlockHandle { offset: w.len() as u64, size: blk.len() as u64 };
        let (w2, idx2) = b.flushed();
        assert(w2 =~= w + x);
        lemma_le_bytes_len(spec_crc32c(seq![CompressionType::NoCompression.spec_code()] + blk) as nat, 4);
        assert(w2.len() <= b.spec_image().len());
        assert forall|k: int| 0 <= k < b.blocks().len() implies #[trigger] block_at(w2, b.index()[k].2, b.blocks()[k]) by {
            crate::table::builder::lemma_block_at_extend(w, x, b.index()[k].2, b.blocks()[k]);
        }
        assert(w2.subrange(h.offset as int, h.offset + h.size) =~= blk);
        assert(w2.subrange(h.offset + h.size, h.offset + h.size + 5) =~= spec_block_trailer(blk));
        assert(block_at(w2, h, p));
        let fb = final_blocks(b);
        assert(idx2 == b.index().push((p[0].0, p.last().0, h)));
        assert(fb == b.blocks().push(p));
        assert(b.index().len() == b.blocks().len());
        assert forall|k: int| 0 <= k < idx2.len() implies #[trigger] block_at(w2, idx2[k].2, fb[k])
            && idx2[k].0 == fb[k][0].0 && idx2[k].1 == fb[k].last().0 by {
            if k < b.blocks().len() {
                assert(idx2[k] == b.index()[k]);
                assert(fb[k] == b.blocks()[k]);
                assert(block_at(w, b.index()[k].2, b.blocks()[k]));
            } else {
                assert(fb[k] == p);
                assert(idx2[k] == (p[0].0, p.last().0, h));
            }
        }
        assert(fb.drop_last() =~= b.blocks());
        assert forall|k: int| 0 <= k < fb.len() implies (#[trigger] fb[k]).len() > 0 by {
            if k < b.blocks().len() {
                assert(fb[k] == b.blocks()[k]);
                assert(block_at(w, b.index()[k].2, b.blocks()[k]));
            }
        }
    } else {
        assert(b.all_added() =~= flatten(b.blocks()));
        assert forall|k: int| 0 <= k < b.blocks().len() implies (#[trigger] b.blocks()[k]).len() > 0 by {
            assert(block_at(w, b.index()[k].2, b.blocks()[k]));
        }
    }
}

/// The image a builder produces: data, properties block, index block, each block with
/// its trailer, and the footer.
pub open spec fn image_of(w: Seq<u8>, props: PropertiesView, idx: Seq<IndexEntryView>) -> Seq<u8> {
    let pb = spec_encode_properties(props);
    let ph = BlockHandle { offset: w.len() as u64, size: pb.len() as u64 };
    let w2 = w + pb + spec_block_trailer(pb);
    let ib = spec_encode_index(idx);
    let ih = BlockHandle { offset: w2.len() as u64, size: ib.len() as u64 };
    w2 + ib + spec_block_trailer(ib) + spec_encode_footer(ph, ih)
}

/// Such an image opens with the index and properties it was made from.
proof fn lemma_open_image(w: Seq<u8>, props: PropertiesView, idx: Seq<IndexEntryView>)
    requires
        properties_fit(props),
        idx.len() <= max_u32(),
        forall|i: int| 0 <= i < idx.len() ==> (#[trigger] idx[i]).0.0.len() <= max_u32() && idx[i].1.0.len() <= max_u32(),
        image_of(w, props, idx).len() <= u64::MAX,
    ensures
        spec_open_table(image_of(w, props, idx)) == Some((idx, props)),
{
    let pb = spec_encode_properties(props);
    let ph = BlockHandle { offset: w.len() as u64, size: pb.len() as u64 };
    let tp = spec_block_trailer(pb);
    let w2 = w + pb + tp;
    let ib = spec_encode_index(idx);
    let ih = BlockHandle { offset: w2.len() as u64, size: ib.len() as u64 };
    let ti = spec_block_trailer(ib);
    let footer = spec_encode_footer(ph, ih);
    let image = image_of(w, props, idx);
    lemma_le_bytes_len(spec_crc32c(seq![CompressionType::NoCompression.spec_code()] + pb) as nat, 4);
    lemma_le_bytes_len(spec_crc32c(seq![CompressionType::NoCompression.spec_code()] + ib) as nat, 4);
    lemma_le_bytes_len(ph.offset as nat, 8);
    lemma_le_bytes_len(ph.size as nat, 8);
    lemma_le_bytes_len(ih.offset as nat, 8);
    lemma_le_bytes_len(ih.size as nat, 8);
    lemma_le_bytes_len(crate::table::format::TABLE_MAGIC as nat, 8);
    assert(footer.len() == 40);
    assert(image.len() == w.len() + pb.len() + 5 + ib.len() + 5 + 40);
    assert(spec_decode_footer(image.subrange(image.len() - 40, image.len() as int)) == Some((ph, ih))) by {
        assert(image.subrange(image.len() - 40, image.len() as int) =~= footer);
        lemma_footer_roundtrip(ph, ih);
    }
    assert(spec_read_block(image, ph) == Some(pb)) by {
        assert(image.subrange(ph.offset as int, ph.offset + ph.size) =~= pb);
        assert(image.subrange(ph.offset + ph.size, ph.offset + ph.size + 5) =~= tp);
        lemma_read_stored_block(image, ph, pb);
    }
    assert(spec_decode_properties(pb) == Some(props)) by {
        lemma_properties_roundtrip(props);
    }
    assert(spec_read_block(image, ih) == Some(ib)) by {
        assert(image.subrange(ih.offset as int, ih.offset + ih.size) =~= ib);
        assert(image.subrange(ih.offset + ih.size, ih.offset + ih.size + 5) =~= ti);
        lemma_read_stored_block(image, ih, ib);
    }
    assert(spec_decode_index(ib) == Some(idx)) by {
        lemma_index_roundtrip(idx);
    }
}

/// A finished table opens with the index and properties its builder recorded, and its
/// blocks read back as every entry added, in order, each with the value type of its
/// record. This holds when keys, values and the entry count fit their 32-bit length
/// fields and the image fits 64-bit offsets.
pub proof fn lemma_table_roundtrip(b: SSTableBuilder)
    requires
        b.wf(),
        properties_fit(final_properties(b)),
        block_entries_fit(b.all_added()),
        b.all_added().len() <= max_u32(),
        b.all_added().len() * 4 <= usize::MAX,
        b.spec_image().len() <= u64::MAX,
    ensures
        spec_open_table(b.spec_image()) == Some((b.flushed().1, final_properties(b))),
        spec_table_entries_from(b.spec_image(), b.flushed().1, 0) == Some(b.all_added().map_values(|e: EntryView| stored_entry(e))),
{
    let (w, idx) = b.flushed();
    let fb = final_blocks(b);
    let props = final_properties(b);
    let all = b.all_added();
    lemma_flushed_blocks(b);
    lemma_flatten_members(fb);
    let image = b.spec_image();
    assert(image == image_of(w, props, idx));
    assert forall|i: int| 0 <= i < idx.len() implies (#[trigger] idx[i]).0.0.len() <= max_u32() && idx[i].1.0.len() <= max_u32() by {
        assert(block_at(w, idx[i].2, fb[i]));
        assert(fb[i].len() > 0);
        assert(all.contains(fb[i][0]));
        assert(all.contains(fb[i][fb[i].len() - 1]));
        let m1 = choose|m: int| 0 <= m < all.len() && all[m] == fb[i][0];
        let m2 = choose|m: int| 0 <= m < all.len() && all[m] == fb[i][fb[i].len() - 1];
        assert(all[m1].0.0.len() <= max_u32());
        assert(all[m2].0.0.len() <= max_u32());
    }
    lemma_open_image(w, props, idx);
    assert forall|k: int| 0 <= k < fb.len() implies block_entries_fit(#[trigger] fb[k]) && fb[k].len() <= max_u32()
        && fb[k].len() * 4 <= usize::MAX by {
        assert forall|j: int| 0 <= j < fb[k].len() implies (#[trigger] fb[k][j]).0.0.len() <= max_u32()
            && crate::table::block_builder::record_bytes(fb[k][j].1).len() <= max_u32() by {
            assert(all.contains(fb[k][j]));
            let m = choose|m: int| 0 <= m < all.len() && all[m] == fb[k][j];
            assert(all[m].0.0.len() <= max_u32());
        }
    }
    let tail = image.subrange(w.len() as int, image.len() as int);
    assert(w + tail =~= image);
    assert forall|k: int| 0 <= k < idx.len() implies #[trigger] block_at(image, idx[k].2, fb[k])
        && idx[k].0 == fb[k][0].0 && idx[k].1 == fb[k].last().0 by {
        assert(block_at(w, idx[k].2, fb[k]));
        crate::table::builder::lemma_block_at_extend(w, tail, idx[k].2, fb[k]);
    }
    lemma_entries_from(image, idx, fb, 0);
    lemma_flatten_eq(fb);
}

proof fn lemma_sorted_concat_parts(a: Seq<EntryView>, b: Seq<EntryView>)
    requires
        sorted_nonstrict(a + b),
    ensures
        sorted_nonstrict(a),
        sorted_nonstrict(b),
{
    assert forall|i: int, j: int| 0 <= i < j < a.len() implies !crate::key::ikey_lt(#[trigger] a[j].0, #[trigger] a[i].0) by {
        assert((a + b)[i] == a[i] && (a + b)[j] == a[j]);
    }
    assert forall|i: int, j: int| 0 <= i < j < b.len() implies !crate::key::ikey_lt(#[trigger] b[j].0, #[trigger] b[i].0) by {
        assert((a + b)[a.len() + i] == b[i] && (a + b)[a.len() + j] == b[j]);
    }
}

proof fn lemma_blocks_sorted(bs: Seq<Seq<EntryView>>)
    requires
        sorted_nonstrict(flatten(bs)),
    ensures
        forall|k: int| 0 <= k < bs.len() ==> sorted_nonstrict(#[trigger] bs[k]),
    decreases bs.len(),
{
    if bs.len() > 0 {
        lemma_sorted_concat_parts(flatten(bs.drop_last()), bs.last());
        lemma_blocks_sorted(bs.drop_last());
        assert forall|k: int| 0 <= k < bs.len() implies sorted_nonstrict(#[trigger] bs[k]) by {
            if k < bs.len() - 1 {
                assert(bs[k] == bs.drop_last()[k]);
            }
        }
    }
}

/// Blocks of sorted entries, each named by its first and last key, hold only keys within
/// their index ranges.
proof fn lemma_sorted_blocks_within(file: Seq<u8>, idx: Seq<IndexEntryView>, bs: Seq<Seq<EntryView>>)
    requires
        blocks_written(file, idx, bs),
        forall|k: int| 0 <= k < bs.len() ==> block_entries_fit(#[trigger] bs[k]) && bs[k].len() <= max_u32()
            && bs[k].len() * 4 <= usize::MAX,
        forall|k: int| 0 <= k < bs.len() ==> sorted_nonstrict(#[trigger] bs[k]),
    ensures
        blocks_within_index(file, idx),
{
    assert forall|i: int| 0 <= i < idx.len() implies match #[trigger] spec_block_entries(file, idx[i].2) {
        Some(es) => forall|j: int| 0 <= j < es.len()
            ==> !bytes_lt(#[trigger] es[j].0.0, idx[i].0.0) && !bytes_lt(idx[i].1.0, es[j].0.0),
        None => true,
    } by {
        let es = bs[i];
        let blk = spec_finish_block(es, RESTART_INTERVAL as nat);
        assert(block_at(file, idx[i].2, es));
        lemma_read_stored_block(file, idx[i].2, blk);
        crate::table::block::lemma_restarts_len(es, RESTART_INTERVAL as nat);
        lemma_block_roundtrip(es, RESTART_INTERVAL as nat);
        let st = es.map_values(|e: EntryView| stored_entry(e));
        assert(spec_block_entries(file, idx[i].2) == Some(st));
        assert(sorted_nonstrict(es));
        assert forall|j: int| 0 <= j < st.len() implies !bytes_lt(#[trigger] st[j].0.0, idx[i].0.0) && !bytes_lt(idx[i].1.0, st[j].0.0) by {
            assert(st[j].0.0 == es[j].0.0);
            let last = es.len() - 1;
            if j > 0 {
                assert(!crate::key::ikey_lt(es[j].0, es[0].0));
            } else {
                lemma_bytes_lt_irreflexive(es[0].0.0);
            }
            if j < last {
                assert(!crate::key::ikey_lt(es[last].0, es[j].0));
            } else {
                lemma_bytes_lt_irreflexive(es[j].0.0);
            }
        }
    }
}

proof fn lemma_first_visible_stored(es: Seq<EntryView>, key: Seq<u8>, read_seq: u64)
    ensures
        first_visible(es.map_values(|e: EntryView| stored_entry(e)), key, read_seq) == first_visible(es, key, read_seq),
    decreases es.len(),
{
    let st = es.map_values(|e: EntryView| stored_entry(e));
    if es.len() > 0 {
        assert(st.drop_first() =~= es.drop_first().map_values(|e: EntryView| stored_entry(e)));
        assert(st[0] == stored_entry(es[0]));
        lemma_first_visible_stored(es.drop_first(), key, read_seq);
    }
}

/// A point read of a built table agrees with what was added: when the builder was given
/// its entries in internal-key order, reading `key` from the finished image at
/// `read_seq` (past the filter) finds the first added version of `key` visible at
/// `read_seq`, going on through every block that may hold it.
pub proof fn lemma_built_table_get(b: SSTableBuilder, key: Seq<u8>, read_seq: u64)
    requires
        b.wf(),
        properties_fit(final_properties(b)),
        block_entries_fit(b.all_added()),
        b.all_added().len() <= max_u32(),
        b.all_added().len() * 4 <= usize::MAX,
        b.spec_image().len() <= u64::MAX,
        sorted_nonstrict(b.all_added()),
    ensures
        spec_table_get_from(b.spec_image(), b.flushed().1, 0, key, read_seq) == Some(first_visible(b.all_added(), key, read_seq)),
{
    lemma_table_roundtrip(b);
    let (w, idx) = b.flushed();
    let fb = final_blocks(b);
    let all = b.all_added();
    let image = b.spec_image();
    lemma_flushed_blocks(b);
    lemma_flatten_members(fb);
    lemma_blocks_sorted(fb);
    assert forall|k: int| 0 <= k < fb.len() implies block_entries_fit(#[trigger] fb[k]) && fb[k].len() <= max_u32()
        && fb[k].len() * 4 <= usize::MAX by {
        assert forall|j: int| 0 <= j < fb[k].len() implies (#[trigger] fb[k][j]).0.0.len() <= max_u32()
            && crate::table::block_builder::record_bytes(fb[k][j].1).len() <= max_u32() by {
            assert(all.contains(fb[k][j]));
            let m = choose|m: int| 0 <= m < all.len() && all[m] == fb[k][j];
            assert(all[m].0.0.len() <= max_u32());
        }
    }
    let props = final_properties(b);
    assert(image == image_of(w, props, idx));
    let tail = image.subrange(w.len() as int, image.len() as int);
    assert(w + tail =~= image);
    assert forall|k: int| 0 <= k < idx.len() implies #[trigger] block_at(image, idx[k].2, fb[k])
        && idx[k].0 == fb[k][0].0 && idx[k].1 == fb[k].last().0 by {
        assert(block_at(w, idx[k].2, fb[k]));
        crate::table::builder::lemma_block_at_extend(w, tail, idx[k].2, fb[k]);
    }
    lemma_sorted_blocks_within(image, idx, fb);
    lemma_table_get_reads_entries(image, idx, 0, key, read_seq);
    lemma_first_visible_stored(all, key, read_seq);
}

} // verus!
