//! An ordered keyspace: entries sorted by strict byte-lexicographic key
//! order, with point lookup, upsert, and positional access for range scans.
//! Each column of the store is one such partition.

use vstd::prelude::*;

use crate::order::{
    bytes_lt, lemma_lex_asym, lemma_lex_irrefl, lemma_lex_total, lemma_lex_trans, lex_lt,
};

verus! {

/// Keys strictly ascend: no key occurs twice.
pub open spec fn sorted_keys(keys: Seq<Seq<u8>>) -> bool {
    forall|i: int, j: int| 0 <= i < j < keys.len() ==> lex_lt(keys[i], keys[j])
}

/// The first position whose key does not sort before `k`; the length where
/// every key does.
pub open spec fn first_geq(keys: Seq<Seq<u8>>, k: Seq<u8>) -> int
    decreases keys.len(),
{
    if keys.len() == 0 {
        0
    } else if !lex_lt(keys[0], k) {
        0
    } else {
        1 + first_geq(keys.skip(1), k)
    }
}

/// What a sorted keyspace holds at `k`.
pub open spec fn lookup(keys: Seq<Seq<u8>>, vals: Seq<Seq<u8>>, k: Seq<u8>) -> Option<Seq<u8>> {
    let i = first_geq(keys, k);
    if i < keys.len() && keys[i] == k {
        Some(vals[i])
    } else {
        None
    }
}

pub proof fn lemma_first_geq_bounds(keys: Seq<Seq<u8>>, k: Seq<u8>)
    ensures
        0 <= first_geq(keys, k) <= keys.len(),
        forall|j: int| 0 <= j < first_geq(keys, k) ==> lex_lt(keys[j], k),
        first_geq(keys, k) < keys.len() ==> !lex_lt(keys[first_geq(keys, k)], k),
    decreases keys.len(),
{
    if keys.len() > 0 && lex_lt(keys[0], k) {
        lemma_first_geq_bounds(keys.skip(1), k);
        assert forall|j: int| 0 <= j < first_geq(keys, k) implies lex_lt(keys[j], k) by {
            if j > 0 {
                assert(keys.skip(1)[j - 1] == keys[j]);
                assert(lex_lt(keys.skip(1)[j - 1], k));
            }
        }
        if first_geq(keys, k) < keys.len() {
            assert(keys.skip(1)[first_geq(keys, k) - 1] == keys[first_geq(keys, k)]);
        }
    }
}

/// In a sorted keyspace, every position from `first_geq` on holds a key that
/// does not sort before `k`.
pub proof fn lemma_first_geq_all(keys: Seq<Seq<u8>>, k: Seq<u8>)
    requires
        sorted_keys(keys),
    ensures
        forall|j: int| first_geq(keys, k) <= j < keys.len() ==> !lex_lt(keys[j], k),
{
    lemma_first_geq_bounds(keys, k);
    let f = first_geq(keys, k);
    assert forall|j: int| f <= j < keys.len() implies !lex_lt(keys[j], k) by {
        if j > f && lex_lt(keys[j], k) {
            lemma_lex_trans(keys[f], keys[j], k);
        }
    }
}

/// `first_geq` is the one position with everything before it strictly below
/// `k` and nothing from it on below `k`.
pub proof fn lemma_first_geq_char(keys: Seq<Seq<u8>>, k: Seq<u8>, c: int)
    requires
        sorted_keys(keys),
        0 <= c <= keys.len(),
        forall|j: int| 0 <= j < c ==> lex_lt(keys[j], k),
        c < keys.len() ==> !lex_lt(keys[c], k),
    ensures
        first_geq(keys, k) == c,
{
    lemma_first_geq_bounds(keys, k);
    let f = first_geq(keys, k);
    if f < c {
        assert(lex_lt(keys[f], k));
        assert(false);
    }
    if f > c {
        assert(lex_lt(keys[c], k));
        assert(false);
    }
}

/// `first_geq` grows with its bound.
pub proof fn lemma_first_geq_mono(keys: Seq<Seq<u8>>, q1: Seq<u8>, q2: Seq<u8>)
    requires
        sorted_keys(keys),
        lex_lt(q1, q2) || q1 == q2,
    ensures
        first_geq(keys, q1) <= first_geq(keys, q2),
{
    lemma_first_geq_bounds(keys, q1);
    lemma_first_geq_bounds(keys, q2);
    let f1 = first_geq(keys, q1);
    let f2 = first_geq(keys, q2);
    if f1 > f2 {
        assert(lex_lt(keys[f2], q1));
        if lex_lt(q1, q2) {
            lemma_lex_trans(keys[f2], q1, q2);
        }
        assert(false);
    }
}

/// Inserting a fresh key at its sorted position moves every `first_geq`
/// bound past it up by one and leaves the others unchanged.
pub proof fn lemma_first_geq_insert(keys: Seq<Seq<u8>>, i: int, k: Seq<u8>, q: Seq<u8>)
    requires
        sorted_keys(keys),
        i == first_geq(keys, k),
        i == keys.len() || keys[i] != k,
    ensures
        first_geq(keys.insert(i, k), q) == first_geq(keys, q) + if lex_lt(k, q) {
            1int
        } else {
            0int
        },
{
    lemma_first_geq_bounds(keys, k);
    lemma_first_geq_bounds(keys, q);
    keys.insert_ensures(i, k);
    let kn = keys.insert(i, k);
    let f = first_geq(keys, q);
    if lex_lt(k, q) {
        assert(i <= f) by {
            if i > f {
                assert(f < keys.len());
                assert(lex_lt(keys[f], k));
                lemma_lex_trans(keys[f], k, q);
                assert(false);
            }
        }
        assert forall|j: int| 0 <= j < f + 1 implies lex_lt(kn[j], q) by {
            if j < i {
                assert(kn[j] == keys[j]);
                assert(lex_lt(keys[j], k));
                lemma_lex_trans(keys[j], k, q);
            } else if j == i {
                assert(kn[j] == k);
            } else {
                assert(kn[j] == keys[j - 1]);
                assert(lex_lt(keys[j - 1], q));
            }
        }
        if f + 1 < kn.len() {
            assert(kn[f + 1] == keys[f]);
            assert(!lex_lt(kn[f + 1], q));
        }
        lemma_first_geq_sorted_insert(keys, i, k);
        lemma_first_geq_char(kn, q, f + 1);
    } else {
        assert(f <= i) by {
            if f > i {
                assert(i < keys.len());
                assert(lex_lt(keys[i], q));
                lemma_lex_total(k, q);
                if q == k {
                    assert(!lex_lt(keys[i], k));
                    assert(false);
                } else {
                    lemma_lex_trans(keys[i], q, k);
                    assert(!lex_lt(keys[i], k));
                    assert(false);
                }
            }
        }
        assert forall|j: int| 0 <= j < f implies lex_lt(kn[j], q) by {
            assert(kn[j] == keys[j]);
        }
        if f < kn.len() {
            if f < i {
                assert(kn[f] == keys[f]);
                assert(!lex_lt(kn[f], q));
            } else {
                assert(f == i);
                assert(kn[f] == k);
            }
        }
        lemma_first_geq_sorted_insert(keys, i, k);
        lemma_first_geq_char(kn, q, f);
    }
}

/// Inserting at the found position keeps the keyspace sorted, as long as the
/// key is not already held (then it would collide with its neighbour).
pub proof fn lemma_first_geq_sorted_insert(keys: Seq<Seq<u8>>, i: int, k: Seq<u8>)
    requires
        sorted_keys(keys),
        i == first_geq(keys, k),
        i == keys.len() || keys[i] != k,
    ensures
        sorted_keys(keys.insert(i, k)),
{
    lemma_first_geq_bounds(keys, k);
    keys.insert_ensures(i, k);
    let kn = keys.insert(i, k);
    assert forall|j: int| i <= j < keys.len() implies lex_lt(k, keys[j]) by {
        lemma_lex_total(k, keys[i]);
        if j > i {
            lemma_lex_trans(k, keys[i], keys[j]);
        }
    }
    assert forall|a: int, b: int| 0 <= a < b < kn.len() implies lex_lt(kn[a], kn[b]) by {
        if a < i && b < i {
            assert(kn[a] == keys[a] && kn[b] == keys[b]);
        } else if a < i && b == i {
            assert(kn[a] == keys[a] && kn[b] == k);
        } else if a < i && b > i {
            assert(kn[a] == keys[a] && kn[b] == keys[b - 1]);
        } else if a == i {
            assert(kn[a] == k && kn[b] == keys[b - 1]);
        } else {
            assert(kn[a] == keys[a - 1] && kn[b] == keys[b - 1]);
        }
    }
}

/// Upserting at the found position rewrites exactly the looked-up key.
pub proof fn lemma_lookup_update(keys: Seq<Seq<u8>>, vals: Seq<Seq<u8>>, i: int, v: Seq<u8>, q: Seq<u8>)
    requires
        sorted_keys(keys),
        vals.len() == keys.len(),
        0 <= i < keys.len(),
    ensures
        lookup(keys, vals.update(i, v), q) == if q == keys[i] {
            Some(v)
        } else {
            lookup(keys, vals, q)
        },
{
    lemma_first_geq_bounds(keys, q);
    let f = first_geq(keys, q);
    if q == keys[i] {
        lemma_lex_irrefl(q);
        lemma_first_geq_char(keys, q, i);
    } else {
        if f < keys.len() && keys[f] == q {
            assert(f != i);
        }
    }
}

/// Inserting a fresh key at its sorted position: the new keyspace is sorted,
/// holds `v` at `k`, and elsewhere what it held before.
pub proof fn lemma_lookup_insert(
    keys: Seq<Seq<u8>>,
    vals: Seq<Seq<u8>>,
    i: int,
    k: Seq<u8>,
    v: Seq<u8>,
    q: Seq<u8>,
)
    requires
        sorted_keys(keys),
        vals.len() == keys.len(),
        i == first_geq(keys, k),
        i == keys.len() || keys[i] != k,
    ensures
        sorted_keys(keys.insert(i, k)),
        lookup(keys.insert(i, k), vals.insert(i, v), q) == if q == k {
            Some(v)
        } else {
            lookup(keys, vals, q)
        },
{
    lemma_first_geq_bounds(keys, k);
    keys.insert_ensures(i, k);
    vals.insert_ensures(i, v);
    let kn = keys.insert(i, k);
    let vn = vals.insert(i, v);
    // Everything before position i sorts below k; everything from i on,
    // strictly above it.
    assert forall|j: int| i <= j < keys.len() implies lex_lt(k, keys[j]) by {
        lemma_lex_total(k, keys[i]);
        if j > i {
            lemma_lex_trans(k, keys[i], keys[j]);
        }
    }
    assert forall|a: int, b: int| 0 <= a < b < kn.len() implies lex_lt(kn[a], kn[b]) by {
        if a < i && b < i {
            assert(kn[a] == keys[a] && kn[b] == keys[b]);
        } else if a < i && b == i {
            assert(kn[a] == keys[a] && kn[b] == k);
        } else if a < i && b > i {
            assert(kn[a] == keys[a] && kn[b] == keys[b - 1]);
        } else if a == i {
            assert(kn[a] == k && kn[b] == keys[b - 1]);
        } else {
            assert(kn[a] == keys[a - 1] && kn[b] == keys[b - 1]);
        }
    }
    lemma_first_geq_bounds(keys, q);
    let f = first_geq(keys, q);
    if q == k {
        lemma_lex_irrefl(k);
        lemma_first_geq_char(kn, q, i);
        assert(lookup(kn, vn, q) == Some(v));
        if f < keys.len() && keys[f] == q {
            assert(!lex_lt(keys[f], k));
            assert(lex_lt(keys[f], k) || f == i);
            assert(false);
        }
    } else {
        lemma_lex_total(k, q);
        if lex_lt(k, q) {
            // The inserted key sits below q: positions shift by one.
            assert(i <= f) by {
                if i > f {
                    assert(f < keys.len());
                    assert(lex_lt(keys[f], k));
                    lemma_lex_trans(keys[f], k, q);
                    assert(false);
                }
            }
            assert forall|j: int| 0 <= j < f + 1 implies lex_lt(kn[j], q) by {
                if j < i {
                    assert(kn[j] == keys[j]);
                    assert(lex_lt(keys[j], k));
                    lemma_lex_trans(keys[j], k, q);
                } else if j == i {
                    assert(kn[j] == k);
                } else {
                    assert(kn[j] == keys[j - 1]);
                    assert(lex_lt(keys[j - 1], q));
                }
            }
            if f + 1 < kn.len() {
                assert(kn[f + 1] == keys[f]);
                assert(!lex_lt(kn[f + 1], q));
            }
            lemma_first_geq_char(kn, q, f + 1);
            if f < keys.len() {
                assert(kn[f + 1] == keys[f] && vn[f + 1] == vals[f]);
            }
        } else {
            // q sorts below the inserted key: positions are unchanged.
            assert(lex_lt(q, k));
            assert(f <= i) by {
                if f > i {
                    assert(lex_lt(keys[i], q));
                    lemma_lex_trans(keys[i], q, k);
                    assert(!lex_lt(keys[i], k));
                    assert(false);
                }
            }
            assert forall|j: int| 0 <= j < f implies lex_lt(kn[j], q) by {
                assert(kn[j] == keys[j]);
            }
            if f < kn.len() {
                if f < i {
                    assert(kn[f] == keys[f]);
                    assert(!lex_lt(kn[f], q));
                } else {
                    assert(kn[f] == k);
                    lemma_lex_asym(q, k);
                    assert(!lex_lt(kn[f], q));
                }
            }
            lemma_first_geq_char(kn, q, f);
            if f < i {
                assert(kn[f] == keys[f] && vn[f] == vals[f]);
            } else if f < keys.len() {
                assert(f == i);
                assert(kn[f] == k);
                assert(kn[f] != q);
                assert(keys[f] != q) by {
                    if keys[f] == q {
                        assert(!lex_lt(keys[f], k));
                        lemma_lex_asym(q, k);
                        assert(lex_lt(q, k));
                        assert(false);
                    }
                }
            }
        }
    }
}

/// One ordered column of the store.
pub struct Partition {
    pub entries: Vec<(Vec<u8>, Vec<u8>)>,
}

impl Partition {
    pub open spec fn len(self) -> nat {
        self.entries@.len()
    }

    pub open spec fn key_at(self, i: int) -> Seq<u8> {
        self.entries@[i].0@
    }

    pub open spec fn val_at(self, i: int) -> Seq<u8> {
        self.entries@[i].1@
    }

    pub open spec fn keys(self) -> Seq<Seq<u8>> {
        Seq::new(self.len(), |i: int| self.key_at(i))
    }

    pub open spec fn vals(self) -> Seq<Seq<u8>> {
        Seq::new(self.len(), |i: int| self.val_at(i))
    }

    pub open spec fn wf(self) -> bool {
        sorted_keys(self.keys())
    }

    pub open spec fn value_of(self, k: Seq<u8>) -> Option<Seq<u8>> {
        lookup(self.keys(), self.vals(), k)
    }

    pub fn new() -> (p: Partition)
        ensures
            p.len() == 0,
            p.wf(),
    {
        Partition { entries: Vec::new() }
    }

    pub fn count(&self) -> (n: usize)
        ensures
            n == self.len(),
    {
        self.entries.len()
    }

    pub fn key_ref(&self, i: usize) -> (r: &Vec<u8>)
        requires
            i < self.len(),
        ensures
            r@ == self.key_at(i as int),
    {
        &self.entries[i].0
    }

    pub fn val_ref(&self, i: usize) -> (r: &Vec<u8>)
        requires
            i < self.len(),
        ensures
            r@ == self.val_at(i as int),
    {
        &self.entries[i].1
    }

    /// The position where a scan from `k` starts: the first entry whose key
    /// does not sort before `k`.
    pub fn lower_bound(&self, k: &Vec<u8>) -> (i: usize)
        requires
            self.wf(),
        ensures
            i == first_geq(self.keys(), k@),
    {
        let n = self.entries.len();
        let mut i: usize = 0;
        while i < n && bytes_lt(&self.entries[i].0, k)
            invariant
                i <= n,
                n == self.len(),
                forall|j: int| 0 <= j < i ==> lex_lt(self.keys()[j], k@),
            decreases n - i,
        {
            i += 1;
        }
        proof {
            lemma_first_geq_char(self.keys(), k@, i as int);
        }
        i
    }

    /// Point lookup.
    pub fn get(&self, k: &Vec<u8>) -> (r: Option<&Vec<u8>>)
        requires
            self.wf(),
        ensures
            match self.value_of(k@) {
                Some(v) => r matches Some(rv) && rv@ == v,
                None => r is None,
            },
    {
        let i = self.lower_bound(k);
        proof {
            lemma_first_geq_bounds(self.keys(), k@);
        }
        if i < self.entries.len() && !bytes_lt(k, &self.entries[i].0) {
            proof {
                lemma_lex_total(self.keys()[i as int], k@);
            }
            Some(&self.entries[i].1)
        } else {
            None
        }
    }

    /// Upsert: overwrite the value under an existing key, or insert the new
    /// key at its sorted position.
    pub fn put(&mut self, k: Vec<u8>, v: Vec<u8>)
        requires
            old(self).wf(),
        ensures
            final(self).wf(),
            ({
                let i = first_geq(old(self).keys(), k@);
                if i < old(self).len() && old(self).key_at(i) == k@ {
                    final(self).keys() == old(self).keys() && final(self).vals() == old(
                        self,
                    ).vals().update(i, v@)
                } else {
                    final(self).keys() == old(self).keys().insert(i, k@) && final(self).vals()
                        == old(self).vals().insert(i, v@)
                }
            }),
    {
        let ghost pre = *self;
        let i = self.lower_bound(&k);
        proof {
            lemma_first_geq_bounds(self.keys(), k@);
        }
        if i < self.entries.len() && !bytes_lt(&k, &self.entries[i].0) {
            proof {
                lemma_lex_total(self.keys()[i as int], k@);
                assert(pre.key_at(i as int) == k@);
            }
            self.entries.remove(i);
            self.entries.insert(i, (k, v));
            proof {
                assert(self.keys() =~= pre.keys()) by {
                    assert(forall|j: int|
                        0 <= j < self.len() ==> self.key_at(j) == pre.key_at(j));
                }
                assert(self.vals() =~= pre.vals().update(i as int, v@)) by {
                    assert(forall|j: int|
                        0 <= j < self.len() && j != i ==> self.val_at(j) == pre.val_at(j));
                }
            }
        } else {
            proof {
                if i < self.entries.len() {
                    assert(pre.key_at(i as int) != k@) by {
                        lemma_lex_irrefl(k@);
                    }
                }
                lemma_lookup_insert(pre.keys(), pre.vals(), i as int, k@, v@, k@);
            }
            self.entries.insert(i, (k, v));
            proof {
                assert(self.keys() =~= pre.keys().insert(i as int, k@)) by {
                    pre.keys().insert_ensures(i as int, k@);
                    assert(forall|j: int| 0 <= j < i ==> self.key_at(j) == pre.key_at(j));
                    assert(forall|j: int|
                        i < j < self.len() ==> self.key_at(j) == pre.key_at(j - 1));
                }
                assert(self.vals() =~= pre.vals().insert(i as int, v@)) by {
                    pre.vals().insert_ensures(i as int, v@);
                    assert(forall|j: int| 0 <= j < i ==> self.val_at(j) == pre.val_at(j));
                    assert(forall|j: int|
                        i < j < self.len() ==> self.val_at(j) == pre.val_at(j - 1));
                }
            }
        }
    }
}

} // verus!
