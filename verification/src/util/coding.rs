//! Byte-level encodings shared by the write-ahead batch format, SSTable blocks and
//! table metadata: base-128 varints and fixed-width little-endian integers.
use vstd::prelude::*;

use crate::error::{corruption, Error, Result};

verus! {

/// Largest value a `u32` varint may carry.
pub open spec fn max_u32() -> nat {
    0xffff_ffff
}

/// Largest value a `u64` varint may carry.
pub open spec fn max_u64() -> nat {
    0xffff_ffff_ffff_ffff
}

/// `128^n`.
pub open spec fn pow128(n: nat) -> nat
    decreases n,
{
    if n == 0 {
        1
    } else {
        128 * pow128((n - 1) as nat)
    }
}

/// `256^n`.
pub open spec fn pow256(n: nat) -> nat
    decreases n,
{
    if n == 0 {
        1
    } else {
        256 * pow256((n - 1) as nat)
    }
}

/// Little-endian base-128 encoding of `v`: seven bits per byte, the high bit set on
/// every byte but the last.
pub open spec fn spec_varint(v: nat) -> Seq<u8>
    decreases v,
{
    if v < 128 {
        seq![v as u8]
    } else {
        seq![((v % 128) + 128) as u8] + spec_varint(v / 128)
    }
}

/// Reads one varint from the front of `s`, using at most `max_bytes` bytes.
/// Returns the value and the number of bytes it took.
pub open spec fn parse_varint(s: Seq<u8>, max_bytes: nat) -> Option<(nat, nat)>
    decreases max_bytes,
{
    if max_bytes == 0 || s.len() == 0 {
        None
    } else if s[0] < 128 {
        Some((s[0] as nat, 1nat))
    } else {
        match parse_varint(s.drop_first(), (max_bytes - 1) as nat) {
            Some((v, n)) => Some((((s[0] - 128) + 128 * v) as nat, n + 1)),
            None => None,
        }
    }
}

/// Reads a varint of at most `max_bytes` bytes starting at `pos`, whose value must
/// not exceed `limit`. Returns the value and the position just after it.
pub open spec fn spec_get_var(s: Seq<u8>, pos: nat, max_bytes: nat, limit: nat) -> Option<(nat, nat)> {
    if pos > s.len() {
        None
    } else {
        match parse_varint(s.skip(pos as int), max_bytes) {
            Some((v, n)) => if v <= limit {
                Some((v, pos + n))
            } else {
                None
            },
            None => None,
        }
    }
}

/// The message of the error a varint read at `pos` fails with: the position is past the
/// end, the varint is cut short or too long, or (`overflow`) its value is above `limit`.
pub open spec fn var_error(s: Seq<u8>, pos: nat, max_bytes: nat, overflow: Seq<char>) -> Seq<char> {
    if pos > s.len() {
        "varint position past end of input"@
    } else {
        match parse_varint(s.skip(pos as int), max_bytes) {
            Some(_) => overflow,
            None => "truncated or overlong varint"@,
        }
    }
}

/// The `n` low bytes of `v`, least significant first.
pub open spec fn le_bytes(v: nat, n: nat) -> Seq<u8>
    decreases n,
{
    if n == 0 {
        Seq::empty()
    } else {
        seq![(v % 256) as u8] + le_bytes(v / 256, (n - 1) as nat)
    }
}

/// The value of a little-endian byte string.
pub open spec fn le_value(s: Seq<u8>) -> nat
    decreases s.len(),
{
    if s.len() == 0 {
        0
    } else {
        s[0] as nat + 256 * le_value(s.drop_first())
    }
}

pub proof fn lemma_pow128_monotone(a: nat, b: nat)
    requires
        a <= b,
    ensures
        pow128(a) <= pow128(b),
        pow128(a) >= 1,
    decreases b,
{
    if a < b {
        lemma_pow128_monotone(a, (b - 1) as nat);
    } else if a > 0 {
        lemma_pow128_monotone((a - 1) as nat, (a - 1) as nat);
    }
}

pub proof fn lemma_pow256_positive(a: nat)
    ensures
        pow256(a) >= 1,
    decreases a,
{
    if a > 0 {
        lemma_pow256_positive((a - 1) as nat);
    }
}

/// A parsed varint takes at most `max_bytes` bytes and stays below `128^len`.
pub proof fn lemma_parse_varint_bound(s: Seq<u8>, max_bytes: nat)
    ensures
        parse_varint(s, max_bytes) matches Some((v, n)) ==> 1 <= n <= max_bytes && n <= s.len()
            && v < pow128(n),
    decreases max_bytes,
{
    if max_bytes == 0 || s.len() == 0 {
    } else if s[0] < 128 {
        assert(pow128(1) == 128) by {
            reveal_with_fuel(pow128, 2);
        }
    } else {
        lemma_parse_varint_bound(s.drop_first(), (max_bytes - 1) as nat);
        if let Some((v, n)) = parse_varint(s.drop_first(), (max_bytes - 1) as nat) {
            assert(pow128(n + 1) == 128 * pow128(n));
            assert((s[0] - 128) + 128 * v < 128 * pow128(n)) by (nonlinear_arith)
                requires
                    v < pow128(n),
                    0 <= s[0] - 128 < 128,
            ;
        }
    }
}

/// Encoding then parsing a varint gives back the value and its length.
pub proof fn lemma_varint_roundtrip(v: nat, rest: Seq<u8>, max_bytes: nat)
    requires
        spec_varint(v).len() <= max_bytes,
    ensures
        parse_varint(spec_varint(v) + rest, max_bytes) == Some((v, spec_varint(v).len())),
    decreases v,
{
    let s = spec_varint(v) + rest;
    if v < 128 {
        assert(s[0] == v as u8);
    } else {
        let b = ((v % 128) + 128) as u8;
        lemma_varint_roundtrip(v / 128, rest, (max_bytes - 1) as nat);
        assert(s.drop_first() =~= spec_varint(v / 128) + rest);
        assert(s[0] == b);
        assert((b - 128) + 128 * (v / 128) == v);
    }
}

/// A value below `128^n` (with `n >= 1`) encodes in at most `n` bytes.
pub proof fn lemma_varint_len(v: nat, n: nat)
    requires
        n >= 1,
        v < pow128(n),
    ensures
        1 <= spec_varint(v).len() <= n,
    decreases v,
{
    if v >= 128 {
        assert(n >= 2) by {
            if n == 1 {
                reveal_with_fuel(pow128, 2);
            }
        }
        assert(v / 128 < pow128((n - 1) as nat)) by {
            assert(pow128(n) == 128 * pow128((n - 1) as nat));
        }
        lemma_varint_len(v / 128, (n - 1) as nat);
    }
}

pub proof fn lemma_u32_varint_len(v: nat)
    requires
        v <= max_u32(),
    ensures
        1 <= spec_varint(v).len() <= 5,
{
    assert(pow128(5) == 34359738368) by {
        reveal_with_fuel(pow128, 6);
    }
    lemma_varint_len(v, 5);
}

pub proof fn lemma_u64_varint_len(v: nat)
    requires
        v <= max_u64(),
    ensures
        1 <= spec_varint(v).len() <= 10,
{
    assert(pow128(10) == 1180591620717411303424) by {
        reveal_with_fuel(pow128, 11);
    }
    lemma_varint_len(v, 10);
}

/// Writing a `u32` varint at `pos` and reading it back gives the value and the
/// position just after it.
pub proof fn lemma_get_var_u32_roundtrip(prefix: Seq<u8>, v: nat, rest: Seq<u8>)
    requires
        v <= max_u32(),
    ensures
        spec_get_var(prefix + spec_varint(v) + rest, prefix.len(), 5, max_u32()) == Some(
            (v, prefix.len() + spec_varint(v).len()),
        ),
{
    let s = prefix + spec_varint(v) + rest;
    lemma_u32_varint_len(v);
    assert(s.skip(prefix.len() as int) =~= spec_varint(v) + rest);
    lemma_varint_roundtrip(v, rest, 5);
}

/// Writing a `u64` varint at `pos` and reading it back gives the value and the
/// position just after it.
pub proof fn lemma_get_var_u64_roundtrip(prefix: Seq<u8>, v: nat, rest: Seq<u8>)
    requires
        v <= max_u64(),
    ensures
        spec_get_var(prefix + spec_varint(v) + rest, prefix.len(), 10, max_u64()) == Some(
            (v, prefix.len() + spec_varint(v).len()),
        ),
{
    let s = prefix + spec_varint(v) + rest;
    lemma_u64_varint_len(v);
    assert(s.skip(prefix.len() as int) =~= spec_varint(v) + rest);
    lemma_varint_roundtrip(v, rest, 10);
}

pub proof fn lemma_le_bytes_len(v: nat, n: nat)
    ensures
        le_bytes(v, n).len() == n,
    decreases n,
{
    if n > 0 {
        lemma_le_bytes_len(v / 256, (n - 1) as nat);
    }
}

/// Little-endian bytes read back as the value they were made from.
pub proof fn lemma_le_roundtrip(v: nat, n: nat)
    requires
        v < pow256(n),
    ensures
        le_bytes(v, n).len() == n,
        le_value(le_bytes(v, n)) == v,
    decreases n,
{
    if n > 0 {
        assert(pow256(n) == 256 * pow256((n - 1) as nat));
        assert(v / 256 < pow256((n - 1) as nat));
        lemma_le_roundtrip(v / 256, (n - 1) as nat);
        assert(le_bytes(v, n).drop_first() =~= le_bytes(v / 256, (n - 1) as nat));
    }
}

/// A little-endian value of `n` bytes stays below `256^n`.
pub proof fn lemma_le_value_bound(s: Seq<u8>)
    ensures
        le_value(s) < pow256(s.len()),
    decreases s.len(),
{
    if s.len() > 0 {
        lemma_le_value_bound(s.drop_first());
        let r = le_value(s.drop_first());
        let p = pow256((s.len() - 1) as nat);
        assert(s[0] as nat + 256 * r < 256 * p) by (nonlinear_arith)
            requires
                r < p,
                s[0] < 256,
        ;
    }
}

/// The value of `a + b` splits into the value of `a` and that of `b` shifted past it.
pub proof fn lemma_le_value_append(a: Seq<u8>, b: Seq<u8>)
    ensures
        le_value(a + b) == le_value(a) + pow256(a.len()) * le_value(b),
    decreases a.len(),
{
    if a.len() > 0 {
        assert((a + b).drop_first() =~= a.drop_first() + b);
        lemma_le_value_append(a.drop_first(), b);
        let p = pow256((a.len() - 1) as nat);
        let x = le_value(a.drop_first());
        let y = le_value(b);
        assert((a + b)[0] == a[0]);
        assert(pow256(a.len()) == 256 * p);
        assert(256 * (x + p * y) == 256 * x + (256 * p) * y) by (nonlinear_arith);
        assert(le_value(a + b) == (a + b)[0] as nat + 256 * le_value((a + b).drop_first()));
        assert(le_value(a) == a[0] as nat + 256 * x);
        assert(le_value(a.drop_first() + b) == x + p * y);
        assert(le_value(a + b) == a[0] as nat + 256 * (x + p * y));
        assert(le_value(a + b) == le_value(a) + (256 * p) * y);
        assert(le_value(a + b) == le_value(a) + pow256(a.len()) * y);
    } else {
        assert(a + b =~= b);
        assert(pow256(a.len()) == 1);
        assert(le_value(a) == 0);
        assert(pow256(a.len()) * le_value(b) == le_value(b));
    }
}

/// Appends the varint encoding of `value` to `dst`.
pub fn put_var_u64(dst: &mut Vec<u8>, value: u64)
    ensures
        final(dst)@ == old(dst)@ + spec_varint(value as nat),
{
    let mut v: u64 = value;
    while v >= 128
        invariant
            dst@ + spec_varint(v as nat) == old(dst)@ + spec_varint(value as nat),
        decreases v,
    {
        let byte: u8 = ((v % 128) + 128) as u8;
        let ghost before = dst@;
        assert(spec_varint(v as nat) == seq![byte] + spec_varint((v / 128) as nat));
        dst.push(byte);
        assert(dst@ + spec_varint((v / 128) as nat) =~= before + (seq![byte] + spec_varint(
            (v / 128) as nat,
        )));
        v = v / 128;
    }
    dst.push(v as u8);
    assert(dst@ =~= old(dst)@ + spec_varint(value as nat));
}

/// Appends the varint encoding of `value` to `dst`.
pub fn put_var_u32(dst: &mut Vec<u8>, value: u32)
    ensures
        final(dst)@ == old(dst)@ + spec_varint(value as nat),
{
    put_var_u64(dst, value as u64);
}

/// Reads a varint of at most `max_bytes` bytes at `pos`.
fn parse_varint_at(src: &[u8], pos: usize, max_bytes: usize) -> (r: Option<(u128, usize)>)
    requires
        pos <= src@.len(),
        max_bytes <= 10,
    ensures
        match parse_varint(src@.skip(pos as int), max_bytes as nat) {
            Some((v, n)) => r == Some((v as u128, n as usize)) && v < 1180591620717411303424,
            None => r is None,
        },
    decreases max_bytes,
{
    proof {
        lemma_parse_varint_bound(src@.skip(pos as int), max_bytes as nat);
        assert(pow128(10) == 1180591620717411303424) by {
        reveal_with_fuel(pow128, 11);
    }
        assert(pow128(9) == 9223372036854775808) by {
        reveal_with_fuel(pow128, 10);
    }
    }
    if max_bytes == 0 || pos >= src.len() {
        return None;
    }
    let b = src[pos];
    if b < 128 {
        proof {
            lemma_pow128_monotone(1, 10);
            assert(pow128(1) == 128) by {
                reveal_with_fuel(pow128, 2);
            }
        }
        return Some((b as u128, 1));
    }
    let tail = parse_varint_at(src, pos + 1, max_bytes - 1);
    proof {
        assert(src@.skip(pos as int).drop_first() =~= src@.skip(pos + 1));
        lemma_parse_varint_bound(src@.skip(pos + 1), (max_bytes - 1) as nat);
    }
    match tail {
        Some((v, n)) => {
            proof {
                lemma_pow128_monotone(n as nat, 9);
                lemma_pow128_monotone((n + 1) as nat, 10);
            }
            Some((((b - 128) as u128) + 128 * v, n + 1))
        },
        None => None,
    }
}

/// Reads a `u32` varint at `pos`, returning it and the position just after it.
pub fn get_var_u32(src: &[u8], pos: usize) -> (r: Result<(u32, usize)>)
    ensures
        match spec_get_var(src@, pos as nat, 5, max_u32()) {
            Some((v, p)) => r == Ok::<(u32, usize), Error>((v as u32, p as usize)) && v <= max_u32() && p
                <= src@.len(),
            None => r matches Err(Error::Corruption(m)) && m@ == var_error(src@, pos as nat, 5, "varint overflows u32"@),
        },
{
    if pos > src.len() {
        return Err(corruption("varint position past end of input"));
    }
    proof {
        lemma_parse_varint_bound(src@.skip(pos as int), 5);
    }
    match parse_varint_at(src, pos, 5) {
        Some((v, n)) => {
            proof {
                lemma_parse_varint_bound(src@.skip(pos as int), 5);
            }
            if v <= 0xffff_ffff {
                Ok((v as u32, pos + n))
            } else {
                Err(corruption("varint overflows u32"))
            }
        },
        None => Err(corruption("truncated or overlong varint")),
    }
}

/// Reads a `u64` varint at `pos`, returning it and the position just after it.
pub fn get_var_u64(src: &[u8], pos: usize) -> (r: Result<(u64, usize)>)
    ensures
        match spec_get_var(src@, pos as nat, 10, max_u64()) {
            Some((v, p)) => r == Ok::<(u64, usize), Error>((v as u64, p as usize)) && v <= max_u64() && p
                <= src@.len(),
            None => r matches Err(Error::Corruption(m)) && m@ == var_error(src@, pos as nat, 10, "varint overflows u64"@),
        },
{
    if pos > src.len() {
        return Err(corruption("varint position past end of input"));
    }
    proof {
        lemma_parse_varint_bound(src@.skip(pos as int), 10);
    }
    match parse_varint_at(src, pos, 10) {
        Some((v, n)) => {
            proof {
                lemma_parse_varint_bound(src@.skip(pos as int), 10);
            }
            if v <= 0xffff_ffff_ffff_ffff {
                Ok((v as u64, pos + n))
            } else {
                Err(corruption("varint overflows u64"))
            }
        },
        None => Err(corruption("truncated or overlong varint")),
    }
}

/// Takes `n` bytes starting at `pos`; fails when fewer remain.
pub fn take_bytes(src: &[u8], pos: usize, n: usize) -> (r: Result<&[u8]>)
    ensures
        pos <= src@.len() && n <= src@.len() - pos ==> (r matches Ok(b) && b@ == src@.subrange(
            pos as int,
            pos + n,
        )),
        !(pos <= src@.len() && n <= src@.len() - pos) ==> r matches Err(Error::Corruption(_)),
{
    if pos <= src.len() && n <= src.len() - pos {
        Ok(vstd::slice::slice_subrange(src, pos, pos + n))
    } else {
        Err(corruption("input too short"))
    }
}

/// Appends the `n` low bytes of `value`, least significant first.
pub fn put_fixed(dst: &mut Vec<u8>, value: u64, n: usize)
    requires
        n <= 8,
    ensures
        final(dst)@ == old(dst)@ + le_bytes(value as nat, n as nat),
{
    let mut v: u64 = value;
    let mut i: usize = 0;
    while i < n
        invariant
            i <= n,
            dst@ + le_bytes(v as nat, (n - i) as nat) == old(dst)@ + le_bytes(value as nat, n as nat),
        decreases n - i,
    {
        let byte: u8 = (v % 256) as u8;
        let ghost before = dst@;
        assert(le_bytes(v as nat, (n - i) as nat) == seq![byte] + le_bytes(
            (v / 256) as nat,
            (n - i - 1) as nat,
        ));
        dst.push(byte);
        assert(dst@ + le_bytes((v / 256) as nat, (n - i - 1) as nat) =~= before + (seq![byte]
            + le_bytes((v / 256) as nat, (n - i - 1) as nat)));
        v = v / 256;
        i = i + 1;
    }
    assert(dst@ =~= old(dst)@ + le_bytes(value as nat, n as nat));
}

/// Reads `n` little-endian bytes starting at `pos`.
pub fn get_fixed(src: &[u8], pos: usize, n: usize) -> (r: u64)
    requires
        n <= 8,
        pos + n <= src@.len(),
    ensures
        r as nat == le_value(src@.subrange(pos as int, pos + n)),
{
    let mut acc: u64 = 0;
    let mut i: usize = n;
    let len = src.len();
    while i > 0
        invariant
            i <= n <= 8,
            len == src@.len(),
            pos + n <= src@.len(),
            acc as nat == le_value(src@.subrange(pos + i, pos + n)),
        decreases i,
    {
        let ghost old_part = src@.subrange(pos + i, pos + n);
        let b = src[pos + i - 1];
        proof {
            let part = src@.subrange(pos + i - 1, pos + n);
            assert(part.drop_first() =~= old_part);
            assert(part[0] == b);
            lemma_le_value_bound(old_part);
            assert(pow256(7) == 72057594037927936) by {
        reveal_with_fuel(pow256, 8);
    }
            assert(old_part.len() <= 7);
            assert(pow256(old_part.len()) <= pow256(7)) by {
                lemma_pow256_le(old_part.len(), 7);
            }
        }
        acc = b as u64 + 256 * acc;
        i = i - 1;
    }
    acc
}

proof fn lemma_pow256_le(a: nat, b: nat)
    requires
        a <= b,
    ensures
        pow256(a) <= pow256(b),
    decreases b,
{
    lemma_pow256_positive(b);
    if a < b {
        lemma_pow256_le(a, (b - 1) as nat);
    }
}

} // verus!
