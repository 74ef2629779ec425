//! Bloom filters over user keys. A filter is a bit array followed by one byte holding
//! the number of probes; key `k` sets, for `j < probes`, the bit at
//! `(h + j * delta) mod bits`, where `h` is the FNV-1a hash of `k` and `delta` is `h`
//! rotated right by 17.
use vstd::prelude::*;

verus! {

/// Probes per key.
pub const BLOOM_PROBES: u8 = 6;

/// FNV-1a over `s`, starting from `h`.
pub open spec fn fnv_fold(h: u32, s: Seq<u8>) -> u32
    decreases s.len(),
{
    if s.len() == 0 {
        h
    } else {
        fnv_fold(vstd::wrapping::u32_specs::wrapping_mul(h ^ (s[0] as u32), 16777619u32), s.drop_first())
    }
}

/// The 32-bit FNV-1a hash of `s`.
pub open spec fn spec_bloom_hash(s: Seq<u8>) -> u32 {
    fnv_fold(2166136261u32, s)
}

/// The step between probes: the hash rotated right by 17.
pub open spec fn probe_delta(h: u32) -> u32 {
    (h >> 17u32) | (h << 15u32)
}

/// The hash of the `j`-th probe.
pub open spec fn probe_hash(h: u32, j: nat) -> u32
    decreases j,
{
    if j == 0 {
        h
    } else {
        vstd::wrapping::u32_specs::wrapping_add(probe_hash(h, (j - 1) as nat), probe_delta(h))
    }
}

/// The bit the `j`-th probe of a key with hash `h` lands on, in a filter of `nbits` bits.
pub open spec fn probe_pos(h: u32, j: nat, nbits: nat) -> nat {
    (probe_hash(h, j) as nat) % nbits
}

/// Whether bit `pos` is set in `bits`.
pub open spec fn bit_is_set(bits: Seq<u8>, pos: nat) -> bool {
    (bits[(pos / 8) as int] & (1u8 << ((pos % 8) as u8))) != 0
}

/// Whether some key of `keys` has a probe landing on `pos`.
pub open spec fn probed_by(keys: Seq<Seq<u8>>, pos: nat, nbits: nat) -> bool {
    exists|i: int, j: nat|
        0 <= i < keys.len() && j < BLOOM_PROBES && #[trigger] probe_pos(spec_bloom_hash(keys[i]), j, nbits)
            == pos
}

/// The answer of a filter made of `f` for `key`: a filter shorter than two bytes, or with
/// an unusable probe count, answers yes; otherwise yes exactly when every probe of `key`
/// lands on a set bit.
pub open spec fn spec_may_contain(f: Seq<u8>, key: Seq<u8>) -> bool {
    if f.len() < 2 {
        true
    } else {
        let k = f.last();
        let bits = f.drop_last();
        let nbits = (bits.len() * 8) as nat;
        k == 0 || k > 30 || forall|j: nat| j < k ==> #[trigger] bit_is_set(bits, probe_pos(spec_bloom_hash(key), j, nbits))
    }
}

/// The number of filter bytes for `n` keys: ten bits per key, at least eight bytes,
/// capped for very large key counts.
pub open spec fn filter_bytes(n: nat) -> nat {
    let m = if n < 0x1000_0000 { n } else { 0x1000_0000 };
    if m * 10 / 8 + 1 < 8 { 8 } else { m * 10 / 8 + 1 }
}

/// Whether one of the first `j` probes of a key with hash `h` lands on `pos`.
pub open spec fn probed_by_hash(h: u32, j: nat, pos: nat, nbits: nat) -> bool {
    exists|jj: nat| jj < j && #[trigger] probe_pos(h, jj, nbits) == pos
}

proof fn lemma_probed_by_hash_step(h: u32, j: nat, pos: nat, nbits: nat)
    ensures
        probed_by_hash(h, j + 1, pos, nbits) == (probed_by_hash(h, j, pos, nbits) || probe_pos(h, j, nbits) == pos),
{
    if probed_by_hash(h, j + 1, pos, nbits) {
        let jj = choose|jj: nat| jj < j + 1 && #[trigger] probe_pos(h, jj, nbits) == pos;
        if jj < j {
            assert(probed_by_hash(h, j, pos, nbits));
        }
    }
    if probed_by_hash(h, j, pos, nbits) {
        let jj = choose|jj: nat| jj < j && #[trigger] probe_pos(h, jj, nbits) == pos;
        assert(jj < j + 1 && probe_pos(h, jj, nbits) == pos);
    }
    if probe_pos(h, j, nbits) == pos {
        assert(j < j + 1 && probe_pos(h, j, nbits) == pos);
    }
}

/// Whether `f` is the filter for `keys`: the right length, the probe count last, and
/// exactly the bits probed by the keys set.
pub open spec fn is_bloom_filter_of(keys: Seq<Seq<u8>>, f: Seq<u8>) -> bool {
    &&& f.len() == filter_bytes(keys.len()) + 1
    &&& f.last() == BLOOM_PROBES
    &&& forall|pos: nat|
        pos < filter_bytes(keys.len()) * 8 ==> (#[trigger] bit_is_set(f.drop_last(), pos) <==> probed_by(
            keys,
            pos,
            filter_bytes(keys.len()) * 8,
        ))
}

/// The filter bytes for `keys`.
pub open spec fn spec_bloom_filter(keys: Seq<Seq<u8>>) -> Seq<u8> {
    choose|f: Seq<u8>| is_bloom_filter_of(keys, f)
}

proof fn lemma_byte_from_bits(a: u8, b: u8)
    requires
        forall|t: u8| t < 8 ==> ((a & (1u8 << t)) != 0) == ((b & (1u8 << t)) != 0),
    ensures
        a == b,
{
    assert(((a & (1u8 << 0u8)) != 0) == ((b & (1u8 << 0u8)) != 0));
    assert(((a & (1u8 << 1u8)) != 0) == ((b & (1u8 << 1u8)) != 0));
    assert(((a & (1u8 << 2u8)) != 0) == ((b & (1u8 << 2u8)) != 0));
    assert(((a & (1u8 << 3u8)) != 0) == ((b & (1u8 << 3u8)) != 0));
    assert(((a & (1u8 << 4u8)) != 0) == ((b & (1u8 << 4u8)) != 0));
    assert(((a & (1u8 << 5u8)) != 0) == ((b & (1u8 << 5u8)) != 0));
    assert(((a & (1u8 << 6u8)) != 0) == ((b & (1u8 << 6u8)) != 0));
    assert(((a & (1u8 << 7u8)) != 0) == ((b & (1u8 << 7u8)) != 0));
    assert(a == b) by (bit_vector)
        requires
            ((a & (1u8 << 0u8)) != 0) == ((b & (1u8 << 0u8)) != 0),
            ((a & (1u8 << 1u8)) != 0) == ((b & (1u8 << 1u8)) != 0),
            ((a & (1u8 << 2u8)) != 0) == ((b & (1u8 << 2u8)) != 0),
            ((a & (1u8 << 3u8)) != 0) == ((b & (1u8 << 3u8)) != 0),
            ((a & (1u8 << 4u8)) != 0) == ((b & (1u8 << 4u8)) != 0),
            ((a & (1u8 << 5u8)) != 0) == ((b & (1u8 << 5u8)) != 0),
            ((a & (1u8 << 6u8)) != 0) == ((b & (1u8 << 6u8)) != 0),
            ((a & (1u8 << 7u8)) != 0) == ((b & (1u8 << 7u8)) != 0),
    ;
}

/// The filter of a key list is unique.
pub proof fn lemma_bloom_filter_unique(keys: Seq<Seq<u8>>, f: Seq<u8>)
    requires
        is_bloom_filter_of(keys, f),
    ensures
        f == spec_bloom_filter(keys),
{
    let g = spec_bloom_filter(keys);
    assert(is_bloom_filter_of(keys, g));
    let n = filter_bytes(keys.len());
    assert forall|i: int| 0 <= i < f.len() implies f[i] == g[i] by {
        if i < n {
            assert forall|t: u8| t < 8 implies ((f[i] & (1u8 << t)) != 0) == ((g[i] & (1u8 << t)) != 0) by {
                let pos = (8 * i + t) as nat;
                assert(pos / 8 == i && pos % 8 == t);
                assert(bit_is_set(f.drop_last(), pos) == bit_is_set(g.drop_last(), pos));
                assert(f.drop_last()[i] == f[i]);
                assert(g.drop_last()[i] == g[i]);
            }
            lemma_byte_from_bits(f[i], g[i]);
        }
    }
    assert(f =~= g);
}

proof fn lemma_or_bit(b: u8, i: u8, t: u8)
    requires
        i < 8,
        t < 8,
    ensures
        ((b | (1u8 << i)) & (1u8 << t) != 0) == ((b & (1u8 << t) != 0) || i == t),
{
    assert(((b | (1u8 << i)) & (1u8 << t) != 0) == ((b & (1u8 << t) != 0) || i == t)) by (bit_vector)
        requires
            i < 8,
            t < 8,
    ;
}

proof fn lemma_zero_bit(t: u8)
    requires
        t < 8,
    ensures
        (0u8 & (1u8 << t)) == 0,
{
    assert((0u8 & (1u8 << t)) == 0) by (bit_vector);
}

/// FNV-1a hash of `key`.
pub fn bloom_hash(key: &[u8]) -> (h: u32)
    ensures
        h == spec_bloom_hash(key@),
{
    let mut h: u32 = 2166136261;
    let mut i: usize = 0;
    assert(key@.skip(0) =~= key@);
    while i < key.len()
        invariant
            i <= key@.len(),
            fnv_fold(h, key@.skip(i as int)) == spec_bloom_hash(key@),
        decreases key@.len() - i,
    {
        proof {
            assert(key@.skip(i as int).drop_first() =~= key@.skip(i + 1));
            assert(key@.skip(i as int)[0] == key@[i as int]);
        }
        h = (h ^ (key[i] as u32)).wrapping_mul(16777619);
        i = i + 1;
    }
    h
}

/// Builds the filter bytes for `keys`.
pub fn build_bloom_filter(keys: &[Vec<u8>]) -> (f: Vec<u8>)
    ensures
        f@ == spec_bloom_filter(keys@.map_values(|k: Vec<u8>| k@)),
        f@.len() == filter_bytes(keys@.len() as nat) + 1,
        f@.last() == BLOOM_PROBES,
        forall|pos: nat|
            pos < filter_bytes(keys@.len() as nat) * 8 ==> (#[trigger] bit_is_set(f@.drop_last(), pos)
                <==> probed_by(keys@.map_values(|k: Vec<u8>| k@), pos, filter_bytes(keys@.len() as nat) * 8)),
{
    let n = keys.len();
    let m: usize = if n < 0x1000_0000 { n } else { 0x1000_0000 };
    let nbytes: usize = if m * 10 / 8 + 1 < 8 { 8 } else { m * 10 / 8 + 1 };
    let nbits: u64 = (nbytes as u64) * 8;
    let ghost kv = keys@.map_values(|k: Vec<u8>| k@);
    let mut bits: Vec<u8> = vec![0u8; nbytes];
    proof {
        assert forall|pos: nat| pos < nbits implies !#[trigger] bit_is_set(bits@, pos) by {
            lemma_zero_bit((pos % 8) as u8);
        }
    }
    let mut i: usize = 0;
    while i < keys.len()
        invariant
            i <= keys@.len(),
            nbytes == filter_bytes(keys@.len() as nat),
            nbits == nbytes * 8,
            bits@.len() == nbytes,
            kv == keys@.map_values(|k: Vec<u8>| k@),
            forall|pos: nat| pos < nbits ==> (#[trigger] bit_is_set(bits@, pos) <==> probed_by(
                kv.subrange(0, i as int),
                pos,
                nbits as nat,
            )),
        decreases keys@.len() - i,
    {
        let h = bloom_hash(keys[i].as_slice());
        let delta: u32 = (h >> 17u32) | (h << 15u32);
        let mut g: u32 = h;
        let mut j: u8 = 0;
        let ghost done = kv.subrange(0, i as int);
        while j < BLOOM_PROBES
            invariant
                j <= BLOOM_PROBES,
                bits@.len() == nbytes,
                nbits == nbytes * 8,
                nbytes >= 8,
                h == spec_bloom_hash(kv[i as int]),
                delta == probe_delta(h),
                g == probe_hash(h, j as nat),
                forall|pos: nat| pos < nbits ==> (#[trigger] bit_is_set(bits@, pos) <==> (probed_by(done, pos, nbits as nat)
                    || probed_by_hash(h, j as nat, pos, nbits as nat))),
            decreases BLOOM_PROBES - j,
        {
            let pos: u64 = (g as u64) % nbits;
            assert(pos / 8 < nbytes) by (nonlinear_arith)
                requires
                    pos < nbits,
                    nbits == nbytes * 8,
            ;
            let byte_index: usize = (pos / 8) as usize;
            let bit: u8 = (pos % 8) as u8;
            let ghost old_bits = bits@;
            let nb: u8 = bits[byte_index] | (1u8 << bit);
            bits.set(byte_index, nb);
            proof {
                assert(probe_pos(h, j as nat, nbits as nat) == pos);
                assert forall|p: nat| p < nbits implies (#[trigger] bit_is_set(bits@, p) <==> (probed_by(done, p, nbits as nat)
                    || probed_by_hash(h, (j + 1) as nat, p, nbits as nat))) by {
                    lemma_probed_by_hash_step(h, j as nat, p, nbits as nat);
                    assert(byte_index as nat == pos / 8);
                    assert(bit as nat == pos % 8);
                    if p / 8 == pos / 8 {
                        lemma_or_bit(old_bits[byte_index as int], bit, (p % 8) as u8);
                        assert(bits@[(p / 8) as int] == nb);
                        assert((p % 8 == pos % 8) == (p == pos));
                        assert(bit_is_set(bits@, p) == (bit_is_set(old_bits, p) || p == pos));
                    } else {
                        assert(bits@[(p / 8) as int] == old_bits[(p / 8) as int]);
                        assert(p != pos);
                        assert(bit_is_set(bits@, p) == bit_is_set(old_bits, p));
                    }
                }
            }
            g = g.wrapping_add(delta);
            j = j + 1;
        }
        proof {
            let next = kv.subrange(0, i + 1);
            assert forall|p: nat| p < nbits implies (#[trigger] bit_is_set(bits@, p) <==> probed_by(next, p, nbits as nat)) by {
                if probed_by(next, p, nbits as nat) {
                    assert(next.len() == i + 1);
                    let (a, b) = choose|a: int, b: nat|
                        0 <= a < next.len() && b < BLOOM_PROBES && #[trigger] probe_pos(spec_bloom_hash(next[a]), b, nbits as nat) == p;
                    if a < i {
                        assert(done[a] == next[a]);
                        assert(probe_pos(spec_bloom_hash(done[a]), b, nbits as nat) == p);
                    } else {
                        assert(next[a] == kv[i as int]);
                    }
                }
                if probed_by(done, p, nbits as nat) {
                    let (a, b) = choose|a: int, b: nat|
                        0 <= a < done.len() && b < BLOOM_PROBES && #[trigger] probe_pos(spec_bloom_hash(done[a]), b, nbits as nat) == p;
                    assert(next[a] == done[a]);
                    assert(probe_pos(spec_bloom_hash(next[a]), b, nbits as nat) == p);
                }
                if probed_by_hash(h, BLOOM_PROBES as nat, p, nbits as nat) {
                    let jj = choose|jj: nat| jj < BLOOM_PROBES && #[trigger] probe_pos(h, jj, nbits as nat) == p;
                    assert(next[i as int] == kv[i as int]);
                    assert(probe_pos(spec_bloom_hash(next[i as int]), jj, nbits as nat) == p);
                }
            }
        }
        i = i + 1;
    }
    let mut f = bits;
    let ghost b = f@;
    f.push(BLOOM_PROBES);
    proof {
        assert(f@.drop_last() =~= b);
        assert(kv.subrange(0, keys@.len() as int) =~= kv);
        lemma_bloom_filter_unique(kv, f@);
    }
    f
}

/// A filter read back from its bytes.
#[derive(Debug, Clone)]
pub struct BloomFilter {
    bits: Vec<u8>,
    probes: u8,
}

impl BloomFilter {
    /// The filter bytes this value was read from.
    pub closed spec fn bytes(&self) -> Seq<u8> {
        self.bits@.push(self.probes)
    }

    /// Reads a filter; bytes too short to hold one give `None`.
    pub fn from_bytes(bytes: &[u8]) -> (r: Option<BloomFilter>)
        ensures
            match r {
                Some(f) => bytes@.len() >= 2 && f.bytes() == bytes@,
                None => bytes@.len() < 2,
            },
    {
        if bytes.len() < 2 {
            return None;
        }
        let n = bytes.len() - 1;
        let bits = vstd::slice::slice_to_vec(vstd::slice::slice_subrange(bytes, 0, n));
        let f = BloomFilter { bits, probes: bytes[n] };
        assert(f.bytes() =~= bytes@);
        Some(f)
    }

    /// Whether `key` may be in the set the filter was built from.
    pub fn may_contain(&self, key: &[u8]) -> (r: bool)
        requires
            self.bytes().len() >= 2,
        ensures
            r == spec_may_contain(self.bytes(), key@),
    {
        proof {
            assert(self.bytes().drop_last() =~= self.bits@);
            assert(self.bytes().last() == self.probes);
        }
        let k = self.probes;
        if k == 0 || k > 30 {
            return true;
        }
        if self.bits.len() >= 0x2000_0000 {
            // such filters are never built; a probe count over the bits would not fit
            return self.may_contain_wide(key);
        }
        let nbits: u64 = (self.bits.len() as u64) * 8;
        let h = bloom_hash(key);
        let delta: u32 = (h >> 17u32) | (h << 15u32);
        let mut g: u32 = h;
        let mut j: u8 = 0;
        while j < k
            invariant
                j <= k <= 30,
                nbits == self.bits@.len() * 8,
                self.bits@.len() <= usize::MAX,
                self.bytes().drop_last() == self.bits@,
                self.bytes().last() == k,
                nbits > 0,
                h == spec_bloom_hash(key@),
                delta == probe_delta(h),
                g == probe_hash(h, j as nat),
                forall|jj: nat| jj < j ==> #[trigger] bit_is_set(self.bits@, probe_pos(h, jj, nbits as nat)),
            decreases k - j,
        {
            let pos: u64 = (g as u64) % nbits;
            let bit: u8 = (pos % 8) as u8;
            assert(pos / 8 < self.bits@.len()) by (nonlinear_arith)
                requires
                    pos < nbits,
                    nbits == self.bits@.len() * 8,
            ;
            let idx: usize = (pos / 8) as usize;
            proof {
                let p = probe_pos(h, j as nat, nbits as nat);
                assert(pos as nat == p);
                assert(idx as nat == p / 8);
                assert(bit == (p % 8) as u8);
            }
            if self.bits[idx] & (1u8 << bit) == 0 {
                assert(!bit_is_set(self.bits@, probe_pos(h, j as nat, nbits as nat)));
                return false;
            }
            g = g.wrapping_add(delta);
            j = j + 1;
        }
        true
    }

    fn may_contain_wide(&self, key: &[u8]) -> (r: bool)
        requires
            self.bits@.len() >= 0x2000_0000,
            1 <= self.probes <= 30,
        ensures
            r == spec_may_contain(self.bytes(), key@),
    {
        proof {
            assert(self.bytes().drop_last() =~= self.bits@);
            assert(self.bytes().last() == self.probes);
        }
        let k = self.probes;
        let nbits: u128 = (self.bits.len() as u128) * 8;
        let h = bloom_hash(key);
        let delta: u32 = (h >> 17u32) | (h << 15u32);
        let mut g: u32 = h;
        let mut j: u8 = 0;
        while j < k
            invariant
                j <= k <= 30,
                nbits == self.bits@.len() * 8,
                self.bits@.len() <= usize::MAX,
                self.bytes().drop_last() == self.bits@,
                self.bytes().last() == k,
                nbits > 0,
                h == spec_bloom_hash(key@),
                delta == probe_delta(h),
                g == probe_hash(h, j as nat),
                forall|jj: nat| jj < j ==> #[trigger] bit_is_set(self.bits@, probe_pos(h, jj, nbits as nat)),
            decreases k - j,
        {
            let pos: u128 = (g as u128) % nbits;
            let bit: u8 = (pos % 8) as u8;
            assert(pos / 8 < self.bits@.len()) by (nonlinear_arith)
                requires
                    pos < nbits,
                    nbits == self.bits@.len() * 8,
            ;
            let idx: usize = (pos / 8) as usize;
            proof {
                let p = probe_pos(h, j as nat, nbits as nat);
                assert(pos as nat == p);
                assert(idx as nat == p / 8);
                assert(bit == (p % 8) as u8);
            }
            if self.bits[idx] & (1u8 << bit) == 0 {
                assert(!bit_is_set(self.bits@, probe_pos(h, j as nat, nbits as nat)));
                return false;
            }
            g = g.wrapping_add(delta);
            j = j + 1;
        }
        true
    }
}

/// A filter has no false negatives: every key it was built from passes it.
pub proof fn lemma_bloom_no_false_negatives(keys: Seq<Seq<u8>>, f: Seq<u8>, key: Seq<u8>)
    requires
        f.len() == filter_bytes(keys.len()) + 1,
        f.last() == BLOOM_PROBES,
        forall|pos: nat|
            pos < filter_bytes(keys.len()) * 8 ==> (#[trigger] bit_is_set(f.drop_last(), pos) <==> probed_by(
                keys,
                pos,
                filter_bytes(keys.len()) * 8,
            )),
        keys.contains(key),
    ensures
        spec_may_contain(f, key),
{
    let nbits = filter_bytes(keys.len()) * 8;
    let i = choose|i: int| 0 <= i < keys.len() && keys[i] == key;
    assert(filter_bytes(keys.len()) >= 8);
    assert forall|j: nat| j < f.last() implies #[trigger] bit_is_set(f.drop_last(), probe_pos(spec_bloom_hash(key), j, (f.drop_last().len() * 8) as nat)) by {
        let p = probe_pos(spec_bloom_hash(key), j, nbits);
        assert(p < nbits);
        assert(probe_pos(spec_bloom_hash(keys[i]), j, nbits) == p);
        assert(probed_by(keys, p, nbits));
    }
}

} // verus!
