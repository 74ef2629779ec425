//! Table properties: entry count, key range and filter, stored in their own block.
use vstd::prelude::*;

use crate::error::{Error, Result};
use crate::key::{InternalKey, InternalKeyView};
use crate::table::format::{
    decode_internal_key, encode_internal_key, lemma_internal_key_roundtrip, spec_decode_internal_key,
    spec_encode_internal_key,
};
use crate::util::coding::{
    get_var_u64, lemma_get_var_u64_roundtrip, max_u32, max_u64, put_var_u64, spec_get_var, spec_varint,
    take_bytes,
};

verus! {

/// The abstract value of table properties: entry count, smallest and largest keys, and
/// filter bytes.
pub type PropertiesView = (u64, Option<InternalKeyView>, Option<InternalKeyView>, Seq<u8>);

#[derive(Debug, Clone)]
pub struct TableProperties {
    pub num_entries: u64,
    pub smallest_key: Option<InternalKey>,
    pub largest_key: Option<InternalKey>,
    pub filter: Vec<u8>,
}

/// The abstract value of an optional key.
pub open spec fn opt_key_view(k: Option<InternalKey>) -> Option<InternalKeyView> {
    match k {
        Some(k) => Some(k@),
        None => None,
    }
}

impl View for TableProperties {
    type V = PropertiesView;

    open spec fn view(&self) -> PropertiesView {
        (self.num_entries, opt_key_view(self.smallest_key), opt_key_view(self.largest_key), self.filter@)
    }
}

/// An optional key: a 0 byte for none, or a 1 byte and the encoded key.
pub open spec fn spec_encode_optional_key(k: Option<InternalKeyView>) -> Seq<u8> {
    match k {
        Some(k) => seq![1u8] + spec_encode_internal_key(k),
        None => seq![0u8],
    }
}

/// Properties: entry count, smallest key, largest key, then the filter prefixed by its
/// length as a 64-bit varint.
pub open spec fn spec_encode_properties(p: PropertiesView) -> Seq<u8> {
    spec_varint(p.0 as nat) + spec_encode_optional_key(p.1) + spec_encode_optional_key(p.2)
        + spec_varint(p.3.len()) + p.3
}

/// Reads an optional key at `pos`; at the end of the input there is none.
pub open spec fn spec_decode_optional_key(s: Seq<u8>, pos: nat) -> Option<(Option<InternalKeyView>, nat)> {
    if pos >= s.len() {
        Some((None, pos))
    } else if s[pos as int] == 0 {
        Some((None, pos + 1))
    } else {
        match spec_decode_internal_key(s, pos + 1) {
            Some((k, p)) => Some((Some(k), p)),
            None => None,
        }
    }
}

/// Reads the filter at `pos`; at the end of the input it is empty.
pub open spec fn spec_decode_filter(s: Seq<u8>, pos: nat) -> Option<Seq<u8>> {
    if pos >= s.len() {
        Some(Seq::empty())
    } else {
        match spec_get_var(s, pos, 10, max_u64()) {
            None => None,
            Some((n, p)) => if p + n > s.len() {
                None
            } else {
                Some(s.subrange(p as int, (p + n) as int))
            },
        }
    }
}

/// Properties read from a block; bytes after the filter are ignored.
pub open spec fn spec_decode_properties(s: Seq<u8>) -> Option<PropertiesView> {
    match spec_get_var(s, 0, 10, max_u64()) {
        None => None,
        Some((n, p1)) => match spec_decode_optional_key(s, p1) {
            None => None,
            Some((smallest, p2)) => match spec_decode_optional_key(s, p2) {
                None => None,
                Some((largest, p3)) => match spec_decode_filter(s, p3) {
                    None => None,
                    Some(f) => Some((n as u64, smallest, largest, f)),
                },
            },
        },
    }
}

fn encode_optional_key(key: &Option<InternalKey>, dst: &mut Vec<u8>)
    ensures
        final(dst)@ == old(dst)@ + spec_encode_optional_key(opt_key_view(*key)),
{
    match key {
        Some(key) => {
            dst.push(1);
            encode_internal_key(key, dst);
        },
        None => dst.push(0),
    }
    assert(final(dst)@ =~= old(dst)@ + spec_encode_optional_key(opt_key_view(*key)));
}

fn decode_optional_key(src: &[u8], pos: usize) -> (r: Result<(Option<InternalKey>, usize)>)
    ensures
        match spec_decode_optional_key(src@, pos as nat) {
            Some((k, p)) => r matches Ok((key, q)) && opt_key_view(key) == k && q == p,
            None => r matches Err(Error::Corruption(_)),
        },
{
    if pos >= src.len() {
        return Ok((None, pos));
    }
    if src[pos] == 0 {
        return Ok((None, pos + 1));
    }
    let (key, p) = decode_internal_key(src, pos + 1)?;
    Ok((Some(key), p))
}

impl TableProperties {
    pub fn encode(&self) -> (r: Vec<u8>)
        ensures
            r@ == spec_encode_properties(self@),
    {
        let mut dst: Vec<u8> = Vec::new();
        put_var_u64(&mut dst, self.num_entries);
        encode_optional_key(&self.smallest_key, &mut dst);
        encode_optional_key(&self.largest_key, &mut dst);
        put_var_u64(&mut dst, self.filter.len() as u64);
        dst.extend_from_slice(self.filter.as_slice());
        assert(dst@ =~= spec_encode_properties(self@));
        dst
    }

    pub fn decode(bytes: &[u8]) -> (r: Result<Self>)
        ensures
            match spec_decode_properties(bytes@) {
                Some(p) => r matches Ok(props) && props@ == p,
                None => r matches Err(Error::Corruption(_)),
            },
    {
        let len = bytes.len();
        let (num_entries, p1) = match get_var_u64(bytes, 0) {
            Ok(x) => x,
            Err(e) => return Err(e),
        };
        let (smallest_key, p2) = decode_optional_key(bytes, p1)?;
        let (largest_key, p3) = decode_optional_key(bytes, p2)?;
        let filter = if p3 >= len {
            Vec::new()
        } else {
            let (n, p) = match get_var_u64(bytes, p3) {
                Ok(x) => x,
                Err(e) => return Err(e),
            };
            if n > (len - p) as u64 {
                return Err(crate::error::corruption("input too short"));
            }
            match take_bytes(bytes, p, n as usize) {
                Ok(b) => vstd::slice::slice_to_vec(b),
                Err(e) => return Err(e),
            }
        };
        let props = TableProperties { num_entries, smallest_key, largest_key, filter };
        assert(props.filter@ =~= spec_decode_properties(bytes@).unwrap().3);
        Ok(props)
    }
}

/// Whether the keys of `p` fit their 32-bit length fields and the filter's length fits
/// 64 bits.
pub open spec fn properties_fit(p: PropertiesView) -> bool {
    &&& p.1 matches Some(k) ==> k.0.len() <= max_u32()
    &&& p.2 matches Some(k) ==> k.0.len() <= max_u32()
    &&& p.3.len() <= max_u64()
}

proof fn lemma_optional_key_roundtrip(q: Seq<u8>, k: Option<InternalKeyView>, rest: Seq<u8>)
    requires
        k matches Some(k) ==> k.0.len() <= max_u32(),
    ensures
        spec_decode_optional_key(q + spec_encode_optional_key(k) + rest, q.len()) == Some(
            (k, q.len() + spec_encode_optional_key(k).len()),
        ),
{
    let s = q + spec_encode_optional_key(k) + rest;
    match k {
        Some(key) => {
            assert(s[q.len() as int] == 1);
            assert(s =~= (q + seq![1u8]) + spec_encode_internal_key(key) + rest);
            lemma_internal_key_roundtrip(q + seq![1u8], key, rest);
        },
        None => {
            assert(s[q.len() as int] == 0);
        },
    }
}

/// Encoded properties read back as themselves.
#[verifier::rlimit(100)]
#[verifier::spinoff_prover]
pub proof fn lemma_properties_roundtrip(p: PropertiesView)
    requires
        properties_fit(p),
    ensures
        spec_decode_properties(spec_encode_properties(p)) == Some(p),
{
    let a = spec_varint(p.0 as nat);
    let b = spec_encode_optional_key(p.1);
    let c = spec_encode_optional_key(p.2);
    let d = spec_varint(p.3.len()) + p.3;
    let s = spec_encode_properties(p);
    assert(s =~= Seq::<u8>::empty() + a + (b + c + d));
    lemma_get_var_u64_roundtrip(Seq::empty(), p.0 as nat, b + c + d);
    assert(s =~= a + b + (c + d));
    lemma_optional_key_roundtrip(a, p.1, c + d);
    assert(s =~= (a + b) + c + d);
    lemma_optional_key_roundtrip(a + b, p.2, d);
    let q = a + b + c;
    assert(s =~= q + spec_varint(p.3.len()) + p.3);
    lemma_get_var_u64_roundtrip(q, p.3.len(), p.3);
    assert(q.len() < s.len());
    let fp = q.len() + spec_varint(p.3.len()).len();
    assert(s.subrange(fp as int, (fp + p.3.len()) as int) =~= p.3);
}

} // verus!
