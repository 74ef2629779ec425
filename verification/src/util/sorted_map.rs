//! An ordered map from byte strings to byte strings, kept as a vector sorted by key.
use vstd::prelude::*;

use crate::key::{bytes_equal, bytes_less, bytes_lt, lemma_bytes_lt_total, lemma_bytes_lt_transitive};

verus! {

/// The abstract value of a list of rows.
pub open spec fn pairs_view(rows: Seq<(Vec<u8>, Vec<u8>)>) -> Seq<(Seq<u8>, Seq<u8>)> {
    rows.map_values(|r: (Vec<u8>, Vec<u8>)| (r.0@, r.1@))
}

/// Whether the keys of `s` strictly increase.
pub open spec fn keys_increasing(s: Seq<(Seq<u8>, Seq<u8>)>) -> bool {
    forall|i: int, j: int| 0 <= i < j < s.len() ==> bytes_lt(#[trigger] s[i].0, #[trigger] s[j].0)
}

/// The map a list of rows describes, later rows overriding earlier ones.
pub open spec fn pairs_map(s: Seq<(Seq<u8>, Seq<u8>)>) -> Map<Seq<u8>, Seq<u8>>
    decreases s.len(),
{
    if s.len() == 0 {
        Map::empty()
    } else {
        pairs_map(s.drop_last()).insert(s.last().0, s.last().1)
    }
}

proof fn lemma_pairs_map_sorted(s: Seq<(Seq<u8>, Seq<u8>)>)
    requires
        keys_increasing(s),
    ensures
        forall|k: Seq<u8>| #[trigger] pairs_map(s).dom().contains(k) <==> exists|i: int| 0 <= i < s.len() && s[i].0 == k,
        forall|i: int| 0 <= i < s.len() ==> #[trigger] pairs_map(s)[s[i].0] == s[i].1,
    decreases s.len(),
{
    if s.len() > 0 {
        let t = s.drop_last();
        let lk = s.last().0;
        assert forall|i: int, j: int| 0 <= i < j < t.len() implies bytes_lt(#[trigger] t[i].0, #[trigger] t[j].0) by {
            assert(t[i] == s[i] && t[j] == s[j]);
        }
        lemma_pairs_map_sorted(t);
        assert(!pairs_map(t).dom().contains(lk)) by {
            if pairs_map(t).dom().contains(lk) {
                let i = choose|i: int| 0 <= i < t.len() && t[i].0 == lk;
                assert(t[i] == s[i]);
                assert(bytes_lt(s[i].0, s[s.len() - 1].0));
                crate::key::lemma_bytes_lt_irreflexive(lk);
            }
        }
        assert forall|k: Seq<u8>| #[trigger] pairs_map(s).dom().contains(k) <==> exists|i: int| 0 <= i < s.len() && s[i].0 == k by {
            if pairs_map(s).dom().contains(k) && k != lk {
                assert(pairs_map(t).dom().contains(k));
                let i = choose|i: int| 0 <= i < t.len() && t[i].0 == k;
                assert(s[i] == t[i]);
            }
            if k == lk {
                assert(s[s.len() - 1].0 == k);
            }
            if exists|i: int| 0 <= i < s.len() && s[i].0 == k {
                let i = choose|i: int| 0 <= i < s.len() && s[i].0 == k;
                if i < s.len() - 1 {
                    assert(t[i] == s[i]);
                    assert(pairs_map(t).dom().contains(k));
                }
            }
        }
        assert forall|i: int| 0 <= i < s.len() implies #[trigger] pairs_map(s)[s[i].0] == s[i].1 by {
            if i < s.len() - 1 {
                assert(t[i] == s[i]);
                assert(pairs_map(t)[t[i].0] == t[i].1);
                assert(bytes_lt(s[i].0, s[s.len() - 1].0));
                crate::key::lemma_bytes_lt_irreflexive(lk);
                assert(s[i].0 != lk);
            }
        }
    }
}

/// Rows sorted strictly by key.
#[derive(Debug)]
pub struct SortedRows {
    rows: Vec<(Vec<u8>, Vec<u8>)>,
}

impl SortedRows {
    pub closed spec fn view_rows(&self) -> Seq<(Seq<u8>, Seq<u8>)> {
        pairs_view(self.rows@)
    }

    pub closed spec fn wf(&self) -> bool {
        keys_increasing(pairs_view(self.rows@))
    }

    /// The map the rows hold.
    pub open spec fn map(&self) -> Map<Seq<u8>, Seq<u8>> {
        pairs_map(self.view_rows())
    }

    pub fn new() -> (r: Self)
        ensures
            r.wf(),
            r.map() == Map::<Seq<u8>, Seq<u8>>::empty(),
    {
        let r = SortedRows { rows: Vec::new() };
        assert(pairs_view(r.rows@) =~= Seq::<(Seq<u8>, Seq<u8>)>::empty());
        r
    }

    /// The first position whose key is not below `key`.
    fn position(&self, key: &[u8]) -> (p: usize)
        requires
            self.wf(),
        ensures
            p <= self.view_rows().len(),
            forall|q: int| 0 <= q < p ==> bytes_lt(#[trigger] self.view_rows()[q].0, key@),
            p < self.view_rows().len() ==> !bytes_lt(self.view_rows()[p as int].0, key@),
    {
        let ghost v = self.view_rows();
        let mut p: usize = 0;
        while p < self.rows.len() && bytes_less(self.rows[p].0.as_slice(), key)
            invariant
                p <= v.len(),
                v == pairs_view(self.rows@),
                forall|q: int| 0 <= q < p ==> bytes_lt(#[trigger] v[q].0, key@),
            decreases v.len() - p,
        {
            p = p + 1;
        }
        p
    }

    /// Sets `key` to `value`.
    pub fn insert(&mut self, key: Vec<u8>, value: Vec<u8>)
        requires
            old(self).wf(),
        ensures
            final(self).wf(),
            final(self).map() == old(self).map().insert(key@, value@),
    {
        let ghost v = self.view_rows();
        proof {
            lemma_pairs_map_sorted(v);
        }
        let p = self.position(key.as_slice());
        if p < self.rows.len() && bytes_equal(self.rows[p].0.as_slice(), key.as_slice()) {
            let ghost kv = key@;
            let ghost vv = value@;
            self.rows.set(p, (key, value));
            proof {
                let nv = self.view_rows();
                assert(nv =~= v.update(p as int, (kv, vv)));
                assert(keys_increasing(nv)) by {
                    assert forall|i: int, j: int| 0 <= i < j < nv.len() implies bytes_lt(#[trigger] nv[i].0, #[trigger] nv[j].0) by {
                        assert(nv[i].0 == v[i].0 && nv[j].0 == v[j].0);
                    }
                }
                lemma_pairs_map_sorted(nv);
                assert(pairs_map(nv) =~= pairs_map(v).insert(kv, vv)) by {
                    assert forall|k: Seq<u8>| pairs_map(nv).dom().contains(k) <==> pairs_map(v).insert(kv, vv).dom().contains(k) by {
                        if pairs_map(nv).dom().contains(k) {
                            let i = choose|i: int| 0 <= i < nv.len() && nv[i].0 == k;
                            assert(v[i].0 == k);
                        }
                        if pairs_map(v).dom().contains(k) {
                            let i = choose|i: int| 0 <= i < v.len() && v[i].0 == k;
                            assert(nv[i].0 == k);
                        }
                    }
                    assert forall|k: Seq<u8>| pairs_map(nv).dom().contains(k) implies pairs_map(nv)[k] == pairs_map(v).insert(kv, vv)[k] by {
                        let i = choose|i: int| 0 <= i < nv.len() && nv[i].0 == k;
                        assert(pairs_map(nv)[nv[i].0] == nv[i].1);
                        if i != p {
                            assert(pairs_map(v)[v[i].0] == v[i].1);
                        }
                    }
                }
            }
        } else {
            let ghost kv = key@;
            let ghost vv = value@;
            self.rows.insert(p, (key, value));
            proof {
                let nv = self.view_rows();
                assert(nv =~= v.insert(p as int, (kv, vv)));
                if p < v.len() {
                    lemma_bytes_lt_total(v[p as int].0, kv);
                }
                assert(keys_increasing(nv)) by {
                    assert forall|a: int, b: int| 0 <= a < b < nv.len() implies bytes_lt(#[trigger] nv[a].0, #[trigger] nv[b].0) by {
                        if a == p && b - 1 > p {
                            lemma_bytes_lt_transitive(kv, v[p as int].0, v[b - 1].0);
                        }
                    }
                }
                lemma_pairs_map_sorted(nv);
                assert(pairs_map(nv) =~= pairs_map(v).insert(kv, vv)) by {
                    assert forall|k: Seq<u8>| pairs_map(nv).dom().contains(k) <==> pairs_map(v).insert(kv, vv).dom().contains(k) by {
                        if pairs_map(nv).dom().contains(k) {
                            let i = choose|i: int| 0 <= i < nv.len() && nv[i].0 == k;
                            if i < p {
                                assert(v[i].0 == k);
                            } else if i > p {
                                assert(v[i - 1].0 == k);
                            }
                        }
                        if pairs_map(v).dom().contains(k) {
                            let i = choose|i: int| 0 <= i < v.len() && v[i].0 == k;
                            if i < p {
                                assert(nv[i].0 == k);
                            } else {
                                assert(nv[i + 1].0 == k);
                            }
                        }
                        if k == kv {
                            assert(nv[p as int].0 == k);
                        }
                    }
                    assert forall|k: Seq<u8>| pairs_map(nv).dom().contains(k) implies pairs_map(nv)[k] == pairs_map(v).insert(kv, vv)[k] by {
                        let i = choose|i: int| 0 <= i < nv.len() && nv[i].0 == k;
                        assert(pairs_map(nv)[nv[i].0] == nv[i].1);
                        if i < p {
                            assert(nv[i] == v[i]);
                            assert(pairs_map(v)[v[i].0] == v[i].1);
                            crate::key::lemma_bytes_lt_irreflexive(kv);
                            assert(k != kv);
                        } else if i > p {
                            assert(nv[i] == v[i - 1]);
                            assert(pairs_map(v)[v[i - 1].0] == v[i - 1].1);
                            assert(bytes_lt(nv[p as int].0, nv[i].0));
                            crate::key::lemma_bytes_lt_irreflexive(k);
                            assert(k != kv);
                        }
                    }
                }
            }
        }
    }

    /// Removes `key`, if present.
    pub fn remove(&mut self, key: &[u8])
        requires
            old(self).wf(),
        ensures
            final(self).wf(),
            final(self).map() == old(self).map().remove(key@),
    {
        let ghost v = self.view_rows();
        proof {
            lemma_pairs_map_sorted(v);
        }
        let p = self.position(key);
        if p < self.rows.len() && bytes_equal(self.rows[p].0.as_slice(), key) {
            self.rows.remove(p);
            proof {
                let nv = self.view_rows();
                assert(nv =~= v.remove(p as int));
                assert(keys_increasing(nv)) by {
                    assert forall|a: int, b: int| 0 <= a < b < nv.len() implies bytes_lt(#[trigger] nv[a].0, #[trigger] nv[b].0) by {
                        if b < p {
                        } else if a < p {
                            assert(nv[b] == v[b + 1]);
                        } else {
                            assert(nv[a] == v[a + 1] && nv[b] == v[b + 1]);
                        }
                    }
                }
                lemma_pairs_map_sorted(nv);
                assert(pairs_map(nv) =~= pairs_map(v).remove(key@)) by {
                    assert forall|k: Seq<u8>| pairs_map(nv).dom().contains(k) <==> pairs_map(v).remove(key@).dom().contains(k) by {
                        if pairs_map(nv).dom().contains(k) {
                            let i = choose|i: int| 0 <= i < nv.len() && nv[i].0 == k;
                            if i < p {
                                assert(v[i].0 == k);
                                assert(bytes_lt(v[i].0, v[p as int].0));
                                crate::key::lemma_bytes_lt_irreflexive(k);
                            } else {
                                assert(v[i + 1].0 == k);
                                assert(bytes_lt(v[p as int].0, v[i + 1].0));
                                crate::key::lemma_bytes_lt_irreflexive(k);
                            }
                        }
                        if pairs_map(v).dom().contains(k) && k != key@ {
                            let i = choose|i: int| 0 <= i < v.len() && v[i].0 == k;
                            if i < p {
                                assert(nv[i].0 == k);
                            } else {
                                assert(nv[i - 1].0 == k);
                            }
                        }
                    }
                    assert forall|k: Seq<u8>| pairs_map(nv).dom().contains(k) implies pairs_map(nv)[k] == pairs_map(v).remove(key@)[k] by {
                        let i = choose|i: int| 0 <= i < nv.len() && nv[i].0 == k;
                        assert(pairs_map(nv)[nv[i].0] == nv[i].1);
                        if i < p {
                            assert(pairs_map(v)[v[i].0] == v[i].1);
                        } else {
                            assert(pairs_map(v)[v[i + 1].0] == v[i + 1].1);
                        }
                    }
                }
            }
        } else {
            proof {
                assert(!pairs_map(v).dom().contains(key@)) by {
                    if pairs_map(v).dom().contains(key@) {
                        let i = choose|i: int| 0 <= i < v.len() && v[i].0 == key@;
                        if i < p {
                            crate::key::lemma_bytes_lt_irreflexive(key@);
                        } else if i > p {
                            lemma_bytes_lt_total(v[p as int].0, key@);
                            assert(bytes_lt(v[p as int].0, v[i].0));
                            crate::key::lemma_bytes_lt_asymmetric(v[p as int].0, key@);
                        }
                    }
                }
                assert(pairs_map(v).remove(key@) =~= pairs_map(v));
            }
        }
    }

    /// The rows, in ascending key order.
    pub fn into_rows(self) -> (r: Vec<(Vec<u8>, Vec<u8>)>)
        requires
            self.wf(),
        ensures
            keys_increasing(pairs_view(r@)),
            pairs_map(pairs_view(r@)) == self.map(),
    {
        self.rows
    }
}

} // verus!
