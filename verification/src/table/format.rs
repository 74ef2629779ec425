//! On-disk formats of an SSTable: block handles, the footer, encoded internal keys.
use vstd::prelude::*;

use crate::batch::low32;
use crate::error::{corruption, Error, Result};
use crate::key::{value_type_code, InternalKey, InternalKeyView, ValueType};
use crate::util::coding::{
    get_fixed, get_var_u32, get_var_u64, le_bytes, le_value, lemma_get_var_u32_roundtrip,
    lemma_get_var_u64_roundtrip, lemma_le_roundtrip, max_u32, max_u64, pow256, put_fixed,
    put_var_u32, put_var_u64, spec_get_var, spec_varint, take_bytes,
};

verus! {

pub const TABLE_MAGIC: u64 = 0x5459_4c53_4d44_4201;

pub const FOOTER_SIZE: usize = 40;

pub const BLOCK_TRAILER_SIZE: usize = 5;

/// How a block's bytes are stored.
#[derive(Debug, Clone, Copy, PartialEq, Eq, Structural)]
pub enum CompressionType {
    NoCompression,
    Zstd,
}

impl CompressionType {
    /// The stored byte: 0 for none, 1 for zstd.
    pub open spec fn spec_code(self) -> u8 {
        match self {
            CompressionType::NoCompression => 0,
            CompressionType::Zstd => 1,
        }
    }

    pub fn code(self) -> (r: u8)
        ensures
            r == self.spec_code(),
    {
        match self {
            CompressionType::NoCompression => 0,
            CompressionType::Zstd => 1,
        }
    }

    pub fn from_u8(value: u8) -> (r: Result<Self>)
        ensures
            value == 0 ==> r == Ok::<CompressionType, Error>(CompressionType::NoCompression),
            value == 1 ==> r == Ok::<CompressionType, Error>(CompressionType::Zstd),
            value > 1 ==> r matches Err(Error::Corruption(_)),
    {
        match value {
            0 => Ok(CompressionType::NoCompression),
            1 => Ok(CompressionType::Zstd),
            _ => Err(corruption("unknown block compression type")),
        }
    }
}

/// Where a block lies in a table file.
#[derive(Debug, Clone, Copy, PartialEq, Eq, Structural)]
pub struct BlockHandle {
    pub offset: u64,
    pub size: u64,
}

/// The fixed 16-byte form of a handle: offset then size, little-endian.
pub open spec fn spec_encode_handle(h: BlockHandle) -> Seq<u8> {
    le_bytes(h.offset as nat, 8) + le_bytes(h.size as nat, 8)
}

/// The handle held by 16 bytes.
pub open spec fn spec_decode_handle(s: Seq<u8>) -> BlockHandle {
    BlockHandle { offset: le_value(s.subrange(0, 8)) as u64, size: le_value(s.subrange(8, 16)) as u64 }
}

pub proof fn lemma_pow256_8()
    ensures
        pow256(8) == 0x1_0000_0000_0000_0000,
{
    reveal_with_fuel(pow256, 9);
}

/// A handle's fixed form reads back as the handle.
pub proof fn lemma_handle_roundtrip(h: BlockHandle)
    ensures
        spec_encode_handle(h).len() == 16,
        spec_decode_handle(spec_encode_handle(h)) == h,
{
    lemma_pow256_8();
    lemma_le_roundtrip(h.offset as nat, 8);
    lemma_le_roundtrip(h.size as nat, 8);
    let e = spec_encode_handle(h);
    assert(e.subrange(0, 8) =~= le_bytes(h.offset as nat, 8));
    assert(e.subrange(8, 16) =~= le_bytes(h.size as nat, 8));
}

impl BlockHandle {
    pub fn new(offset: u64, size: u64) -> (h: Self)
        ensures
            h.offset == offset,
            h.size == size,
    {
        BlockHandle { offset, size }
    }

    pub fn encode_fixed(self, dst: &mut Vec<u8>)
        ensures
            final(dst)@ == old(dst)@ + spec_encode_handle(self),
    {
        put_fixed(dst, self.offset, 8);
        put_fixed(dst, self.size, 8);
        assert(final(dst)@ =~= old(dst)@ + spec_encode_handle(self));
    }

    pub fn decode_fixed(src: &[u8]) -> (r: Result<Self>)
        ensures
            src@.len() == 16 ==> r == Ok::<BlockHandle, Error>(spec_decode_handle(src@)),
            src@.len() != 16 ==> r matches Err(Error::Corruption(_)),
    {
        if src.len() != 16 {
            return Err(corruption("invalid block handle length"));
        }
        let offset = get_fixed(src, 0, 8);
        let size = get_fixed(src, 8, 8);
        Ok(BlockHandle { offset, size })
    }
}

/// The encoded form of an internal key: user-key length and bytes, sequence, type byte.
pub open spec fn spec_encode_internal_key(k: InternalKeyView) -> Seq<u8> {
    spec_varint(low32(k.0.len())) + k.0 + spec_varint(k.1 as nat) + seq![value_type_code(k.2)]
}

/// The value type stored as `b`, if any.
pub open spec fn spec_value_type(b: u8) -> Option<ValueType> {
    if b == 1 {
        Some(ValueType::Put)
    } else if b == 2 {
        Some(ValueType::Delete)
    } else {
        None
    }
}

/// Reads an encoded internal key at `pos`; gives the key and the position after it.
pub open spec fn spec_decode_internal_key(s: Seq<u8>, pos: nat) -> Option<(InternalKeyView, nat)> {
    match spec_get_var(s, pos, 5, max_u32()) {
        None => None,
        Some((klen, p1)) => if p1 + klen > s.len() {
            None
        } else {
            match spec_get_var(s, p1 + klen, 10, max_u64()) {
                None => None,
                Some((seq, p2)) => if p2 >= s.len() {
                    None
                } else {
                    match spec_value_type(s[p2 as int]) {
                        None => None,
                        Some(t) => Some(((s.subrange(p1 as int, (p1 + klen) as int), seq as u64, t), p2 + 1)),
                    }
                },
            }
        },
    }
}

/// An encoded internal key, wherever it stands, reads back as the key.
pub proof fn lemma_internal_key_roundtrip(q: Seq<u8>, k: InternalKeyView, rest: Seq<u8>)
    requires
        k.0.len() <= max_u32(),
    ensures
        spec_decode_internal_key(q + spec_encode_internal_key(k) + rest, q.len()) == Some(
            (k, q.len() + spec_encode_internal_key(k).len()),
        ),
{
    let s = q + spec_encode_internal_key(k) + rest;
    let klen = k.0.len();
    assert(s =~= q + spec_varint(klen) + (k.0 + spec_varint(k.1 as nat) + seq![value_type_code(k.2)] + rest));
    lemma_get_var_u32_roundtrip(q, klen, k.0 + spec_varint(k.1 as nat) + seq![value_type_code(k.2)] + rest);
    let p1 = q.len() + spec_varint(klen).len();
    assert(s.subrange(p1 as int, (p1 + klen) as int) =~= k.0);
    let pre = q + spec_varint(klen) + k.0;
    assert(s =~= pre + spec_varint(k.1 as nat) + (seq![value_type_code(k.2)] + rest));
    lemma_get_var_u64_roundtrip(pre, k.1 as nat, seq![value_type_code(k.2)] + rest);
    let p2 = pre.len() + spec_varint(k.1 as nat).len();
    assert(s[p2 as int] == value_type_code(k.2));
}

/// Appends the encoded form of `key`.
pub fn encode_internal_key(key: &InternalKey, dst: &mut Vec<u8>)
    ensures
        final(dst)@ == old(dst)@ + spec_encode_internal_key(key@),
{
    let uk = key.user_key();
    put_var_u32(dst, crate::batch::low32_of(uk.len()));
    dst.extend_from_slice(uk);
    put_var_u64(dst, key.sequence());
    dst.push(key.value_type().code());
    assert(final(dst)@ =~= old(dst)@ + spec_encode_internal_key(key@));
}

/// Reads an encoded internal key at `pos`.
pub fn decode_internal_key(src: &[u8], pos: usize) -> (r: Result<(InternalKey, usize)>)
    ensures
        match spec_decode_internal_key(src@, pos as nat) {
            Some((k, p)) => r matches Ok((key, q)) && key@ == k && q == p,
            None => r matches Err(Error::Corruption(_)),
        },
{
    let len = src.len();
    let (key_len, p1) = match get_var_u32(src, pos) {
        Ok(x) => x,
        Err(e) => return Err(e),
    };
    let user_key = match take_bytes(src, p1, key_len as usize) {
        Ok(b) => vstd::slice::slice_to_vec(b),
        Err(e) => return Err(e),
    };
    assert(p1 + key_len as usize <= src@.len());
    let (sequence, p2) = match get_var_u64(src, p1 + key_len as usize) {
        Ok(x) => x,
        Err(e) => return Err(e),
    };
    if p2 >= src.len() {
        return Err(corruption("missing value type"));
    }
    let value_type = decode_value_type(src[p2])?;
    Ok((InternalKey::new(user_key, sequence, value_type), p2 + 1))
}

pub fn decode_value_type(value: u8) -> (r: Result<ValueType>)
    ensures
        match spec_value_type(value) {
            Some(t) => r == Ok::<ValueType, Error>(t),
            None => r matches Err(Error::Corruption(m)) && m@ == "unknown value type"@,
        },
{
    match value {
        1 => Ok(ValueType::Put),
        2 => Ok(ValueType::Delete),
        _ => Err(corruption("unknown value type")),
    }
}

/// The footer: properties handle, index handle, then the magic number.
pub open spec fn spec_encode_footer(properties: BlockHandle, index: BlockHandle) -> Seq<u8> {
    spec_encode_handle(properties) + spec_encode_handle(index) + le_bytes(TABLE_MAGIC as nat, 8)
}

/// The handles a 40-byte footer holds, if its magic number is right.
pub open spec fn spec_decode_footer(s: Seq<u8>) -> Option<(BlockHandle, BlockHandle)> {
    if s.len() != FOOTER_SIZE || le_value(s.subrange(32, 40)) != TABLE_MAGIC {
        None
    } else {
        Some((spec_decode_handle(s.subrange(0, 16)), spec_decode_handle(s.subrange(16, 32))))
    }
}

pub fn encode_footer(properties: BlockHandle, index: BlockHandle) -> (r: Vec<u8>)
    ensures
        r@ == spec_encode_footer(properties, index),
{
    let mut footer: Vec<u8> = Vec::new();
    properties.encode_fixed(&mut footer);
    index.encode_fixed(&mut footer);
    put_fixed(&mut footer, TABLE_MAGIC, 8);
    assert(footer@ =~= spec_encode_footer(properties, index));
    footer
}

pub fn decode_footer(src: &[u8]) -> (r: Result<(BlockHandle, BlockHandle)>)
    ensures
        match spec_decode_footer(src@) {
            Some(hs) => r == Ok::<(BlockHandle, BlockHandle), Error>(hs),
            None => r matches Err(Error::Corruption(_)),
        },
{
    if src.len() != FOOTER_SIZE {
        return Err(corruption("invalid table footer length"));
    }
    let properties = BlockHandle::decode_fixed(vstd::slice::slice_subrange(src, 0, 16))?;
    let index = BlockHandle::decode_fixed(vstd::slice::slice_subrange(src, 16, 32))?;
    let magic = get_fixed(src, 32, 8);
    if magic != TABLE_MAGIC {
        return Err(corruption("invalid table magic"));
    }
    proof {
        assert(src@.subrange(0, 16).subrange(0, 8) =~= src@.subrange(0, 8));
    }
    Ok((properties, index))
}

/// A footer reads back as the handles it was made from.
pub proof fn lemma_footer_roundtrip(properties: BlockHandle, index: BlockHandle)
    ensures
        spec_decode_footer(spec_encode_footer(properties, index)) == Some((properties, index)),
{
    let f = spec_encode_footer(properties, index);
    lemma_handle_roundtrip(properties);
    lemma_handle_roundtrip(index);
    lemma_pow256_8();
    lemma_le_roundtrip(TABLE_MAGIC as nat, 8);
    assert(f.subrange(0, 16) =~= spec_encode_handle(properties));
    assert(f.subrange(16, 32) =~= spec_encode_handle(index));
    assert(f.subrange(32, 40) =~= le_bytes(TABLE_MAGIC as nat, 8));
}

} // verus!
