//! An in-memory key-value store that keeps its records sorted by key.
use vstd::prelude::*;
use crate::keys::copy_bytes;
use crate::lex::{
    bytes_eq, bytes_lt, lemma_lex_lt_asymmetric, lemma_lex_lt_irreflexive, lemma_lex_lt_total,
    lemma_lex_lt_transitive, lex_lt,
};
use crate::storage::{
    Order, Storage, in_scan_range, is_listing, is_selected_record, lists_key, opt_view, ordered,
    records_view, scan_selects,
};

verus! {

/// The keys of `s` strictly increase.
pub open spec fn ascending(s: Seq<(Seq<u8>, Seq<u8>)>) -> bool {
    forall|i: int, j: int| 0 <= i < j < s.len() ==> lex_lt(#[trigger] s[i].0, #[trigger] s[j].0)
}

/// A position of `s` whose key is `k`.
pub open spec fn key_index(s: Seq<(Seq<u8>, Seq<u8>)>, k: Seq<u8>) -> int {
    choose|i: int| 0 <= i < s.len() && (#[trigger] s[i]).0 == k
}

/// The map from each key of `s` to the value beside it.
pub open spec fn entries_map(s: Seq<(Seq<u8>, Seq<u8>)>) -> Map<Seq<u8>, Seq<u8>> {
    Map::new(|k: Seq<u8>| lists_key(s, k), |k: Seq<u8>| s[key_index(s, k)].1)
}

proof fn lemma_entry(s: Seq<(Seq<u8>, Seq<u8>)>, i: int)
    requires
        ascending(s),
        0 <= i < s.len(),
    ensures
        entries_map(s).contains_key(s[i].0),
        entries_map(s)[s[i].0] == s[i].1,
{
    let k = s[i].0;
    assert(lists_key(s, k));
    let j = key_index(s, k);
    if j < i {
        assert(lex_lt(s[j].0, s[i].0));
        lemma_lex_lt_irreflexive(k);
    } else if i < j {
        assert(lex_lt(s[i].0, s[j].0));
        lemma_lex_lt_irreflexive(k);
    }
}

/// Position `m` of `n` records has been visited after `step` steps of a
/// walk in `order`.
pub open spec fn scanned(order: Order, n: int, step: int, m: int) -> bool {
    match order {
        Order::Ascending => m < step,
        Order::Descending => m >= n - step,
    }
}

/// A key-value store held in memory, its records sorted by key.
pub struct MockStorage {
    records: Vec<(Vec<u8>, Vec<u8>)>,
}

impl MockStorage {
    #[verifier::type_invariant]
    spec fn keys_ascending(&self) -> bool {
        ascending(records_view(self.records@))
    }

    /// An empty store.
    pub fn new() -> (s: Self)
        ensures
            s.records() == Map::<Seq<u8>, Seq<u8>>::empty(),
    {
        let s = MockStorage { records: Vec::new() };
        assert(s.records() =~= Map::<Seq<u8>, Seq<u8>>::empty());
        s
    }

    /// The index of the first record whose key is not below `key`, and
    /// whether that record has key `key`.
    fn position(&self, key: &[u8]) -> (r: (usize, bool))
        ensures
            r.0 <= self.records@.len(),
            forall|j: int| 0 <= j < r.0 ==> lex_lt(#[trigger] records_view(self.records@)[j].0, key@),
            r.1 == (r.0 < self.records@.len() && records_view(self.records@)[r.0 as int].0 == key@),
            !r.1 && r.0 < self.records@.len() ==> lex_lt(key@, records_view(self.records@)[r.0 as int].0),
    {
        let ghost rv = records_view(self.records@);
        let n = self.records.len();
        let mut i: usize = 0;
        while i < n && bytes_lt(self.records[i].0.as_slice(), key)
            invariant
                i <= n,
                n == self.records@.len(),
                rv == records_view(self.records@),
                forall|j: int| 0 <= j < i ==> lex_lt(#[trigger] rv[j].0, key@),
            decreases n - i,
        {
            i += 1;
        }
        if i < n {
            let found = bytes_eq(self.records[i].0.as_slice(), key);
            proof {
                if !found {
                    lemma_lex_lt_total(rv[i as int].0, key@);
                }
            }
            (i, found)
        } else {
            (i, false)
        }
    }

    /// The value stored under `key`, if any.
    pub fn read(&self, key: &[u8]) -> (r: Option<Vec<u8>>)
        ensures
            match r {
                Some(v) => self.records().contains_key(key@) && self.records()[key@] == v@,
                None => !self.records().contains_key(key@),
            },
    {
        proof {
            use_type_invariant(self);
        }
        let ghost rv = records_view(self.records@);
        let (i, found) = self.position(key);
        if found {
            proof {
                lemma_entry(rv, i as int);
            }
            Some(copy_bytes(self.records[i].1.as_slice()))
        } else {
            proof {
                self.lemma_absent(key@, i as int);
            }
            None
        }
    }

    proof fn lemma_absent(&self, key: Seq<u8>, i: int)
        requires
            ascending(records_view(self.records@)),
            0 <= i <= self.records@.len(),
            forall|j: int| 0 <= j < i ==> lex_lt(#[trigger] records_view(self.records@)[j].0, key),
            i < self.records@.len() ==> lex_lt(key, records_view(self.records@)[i].0),
        ensures
            !lists_key(records_view(self.records@), key),
            !self.records().contains_key(key),
    {
        let rv = records_view(self.records@);
        if lists_key(rv, key) {
            let j = choose|j: int| 0 <= j < rv.len() && (#[trigger] rv[j]).0 == key;
            if j < i {
                lemma_lex_lt_irreflexive(key);
            } else {
                if j > i {
                    assert(lex_lt(rv[i].0, rv[j].0));
                    lemma_lex_lt_transitive(key, rv[i].0, key);
                }
                lemma_lex_lt_irreflexive(key);
            }
        }
    }

    /// Stores `value` under `key`, replacing what was there.
    pub fn write(&mut self, key: &[u8], value: &[u8])
        ensures
            final(self).records() == old(self).records().insert(key@, value@),
    {
        proof {
            use_type_invariant(&*self);
        }
        let ghost rv = records_view(self.records@);
        let (i, found) = self.position(key);
        proof {
            if !found {
                self.lemma_absent(key@, i as int);
            }
        }
        let mut recs: Vec<(Vec<u8>, Vec<u8>)> = Vec::new();
        std::mem::swap(&mut recs, &mut self.records);
        let entry = (copy_bytes(key), copy_bytes(value));
        let ghost e = (key@, value@);
        if found {
            recs.set(i, entry);
            let ghost nv = records_view(recs@);
            assert(nv =~= rv.update(i as int, e));
            assert(ascending(nv)) by {
                assert forall|a: int, b: int| 0 <= a < b < nv.len() implies lex_lt(
                    #[trigger] nv[a].0,
                    #[trigger] nv[b].0,
                ) by {
                    assert(lex_lt(rv[a].0, rv[b].0));
                }
            }
            assert(entries_map(nv) =~= entries_map(rv).insert(key@, value@)) by {
                assert forall|x: Seq<u8>| #[trigger] lists_key(nv, x) == (x == key@ || lists_key(rv, x)) by {
                    if lists_key(rv, x) {
                        let m = choose|m: int| 0 <= m < rv.len() && (#[trigger] rv[m]).0 == x;
                        assert(nv[m].0 == x);
                    }
                    if lists_key(nv, x) {
                        let m = choose|m: int| 0 <= m < nv.len() && (#[trigger] nv[m]).0 == x;
                        assert(rv[m].0 == x);
                    }
                    if x == key@ {
                        assert(nv[i as int].0 == x);
                    }
                }
                assert forall|x: Seq<u8>| #[trigger] entries_map(nv).contains_key(x) implies entries_map(nv)[x]
                    == entries_map(rv).insert(key@, value@)[x] by {
                    let m = choose|m: int| 0 <= m < nv.len() && (#[trigger] nv[m]).0 == x;
                    lemma_entry(nv, m);
                    if m != i {
                        lemma_entry(rv, m);
                        if m < i {
                            assert(lex_lt(rv[m].0, rv[i as int].0));
                        } else {
                            assert(lex_lt(rv[i as int].0, rv[m].0));
                        }
                        lemma_lex_lt_irreflexive(x);
                        assert(x != key@);
                    }
                }
            }
        } else {
            recs.insert(i, entry);
            let ghost nv = records_view(recs@);
            assert(nv =~= rv.insert(i as int, e));
            assert(ascending(nv)) by {
                assert forall|a: int, b: int| 0 <= a < b < nv.len() implies lex_lt(
                    #[trigger] nv[a].0,
                    #[trigger] nv[b].0,
                ) by {
                    if b < i {
                        assert(lex_lt(rv[a].0, rv[b].0));
                    } else if b == i {
                        assert(lex_lt(rv[a].0, key@));
                    } else if a < i {
                        assert(lex_lt(rv[a].0, key@));
                        assert(lex_lt(key@, rv[i as int].0));
                        if b - 1 > i {
                            assert(lex_lt(rv[i as int].0, rv[b - 1].0));
                            lemma_lex_lt_transitive(key@, rv[i as int].0, rv[b - 1].0);
                        }
                        lemma_lex_lt_transitive(rv[a].0, key@, rv[b - 1].0);
                    } else if a == i {
                        assert(lex_lt(key@, rv[i as int].0));
                        if b - 1 > i {
                            assert(lex_lt(rv[i as int].0, rv[b - 1].0));
                            lemma_lex_lt_transitive(key@, rv[i as int].0, rv[b - 1].0);
                        }
                    } else {
                        assert(lex_lt(rv[a - 1].0, rv[b - 1].0));
                    }
                }
            }
            assert(entries_map(nv) =~= entries_map(rv).insert(key@, value@)) by {
                assert forall|x: Seq<u8>| #[trigger] lists_key(nv, x) == (x == key@ || lists_key(rv, x)) by {
                    if lists_key(rv, x) {
                        let m = choose|m: int| 0 <= m < rv.len() && (#[trigger] rv[m]).0 == x;
                        if m < i {
                            assert(nv[m].0 == x);
                        } else {
                            assert(nv[m + 1].0 == x);
                        }
                    }
                    if lists_key(nv, x) {
                        let m = choose|m: int| 0 <= m < nv.len() && (#[trigger] nv[m]).0 == x;
                        if m < i {
                            assert(rv[m].0 == x);
                        } else if m > i {
                            assert(rv[m - 1].0 == x);
                        }
                    }
                    if x == key@ {
                        assert(nv[i as int].0 == x);
                    }
                }
                assert forall|x: Seq<u8>| #[trigger] entries_map(nv).contains_key(x) implies entries_map(nv)[x]
                    == entries_map(rv).insert(key@, value@)[x] by {
                    let m = choose|m: int| 0 <= m < nv.len() && (#[trigger] nv[m]).0 == x;
                    lemma_entry(nv, m);
                    if m < i {
                        lemma_entry(rv, m);
                    } else if m > i {
                        lemma_entry(rv, m - 1);
                    }
                }
            }
        }
        self.records = recs;
    }
}

impl Storage for MockStorage {
    closed spec fn records(&self) -> Map<Seq<u8>, Seq<u8>> {
        entries_map(records_view(self.records@))
    }

    fn scan(&self, min: Option<&[u8]>, max: Option<&[u8]>, order: Order) -> (out: Vec<(Vec<u8>, Vec<u8>)>) {
        proof {
            use_type_invariant(self);
        }
        let ghost rv = records_view(self.records@);
        let ghost sel = scan_selects(opt_view(min), opt_view(max));
        let n = self.records.len();
        let mut out: Vec<(Vec<u8>, Vec<u8>)> = Vec::new();
        let ghost mut idxs: Seq<int> = Seq::empty();
        let mut step: usize = 0;
        while step < n
            invariant
                step <= n,
                n == rv.len(),
                rv == records_view(self.records@),
                ascending(rv),
                sel == scan_selects(opt_view(min), opt_view(max)),
                idxs.len() == out@.len(),
                forall|j: int|
                    0 <= j < idxs.len() ==> 0 <= #[trigger] idxs[j] < n && scanned(order, n as int, step as int, idxs[j])
                        && records_view(out@)[j] == rv[idxs[j]] && sel(rv[idxs[j]].0),
                forall|m: int|
                    #![trigger rv[m]]
                    0 <= m < n && scanned(order, n as int, step as int, m) && sel(rv[m].0) ==> lists_key(
                        records_view(out@),
                        rv[m].0,
                    ),
                forall|a: int, b: int|
                    0 <= a < b < idxs.len() ==> ordered(rv[#[trigger] idxs[a]].0, rv[#[trigger] idxs[b]].0, order),
            decreases n - step,
        {
            let idx = match order {
                Order::Ascending => step,
                Order::Descending => n - 1 - step,
            };
            let k = self.records[idx].0.as_slice();
            let above = match min {
                Some(m) => !bytes_lt(k, m),
                None => true,
            };
            let below = match max {
                Some(m) => bytes_lt(k, m),
                None => true,
            };
            let ghost before = records_view(out@);
            proof {
                if min is Some {
                    lemma_lex_lt_total(k@, min.unwrap()@);
                    if lex_lt(k@, min.unwrap()@) {
                        lemma_lex_lt_asymmetric(k@, min.unwrap()@);
                        lemma_lex_lt_irreflexive(k@);
                    }
                }
            }
            assert(sel(rv[idx as int].0) == (above && below));
            if above && below {
                let entry = (copy_bytes(k), copy_bytes(self.records[idx].1.as_slice()));
                out.push(entry);
                proof {
                    let after = records_view(out@);
                    assert(after =~= before.push(rv[idx as int]));
                    assert forall|a: int, b: int| 0 <= a < b < idxs.len() + 1 implies ordered(
                        rv[#[trigger] idxs.push(idx as int)[a]].0,
                        rv[#[trigger] idxs.push(idx as int)[b]].0,
                        order,
                    ) by {
                        if b == idxs.len() {
                            let m = idxs[a];
                            assert(scanned(order, n as int, step as int, m));
                            match order {
                                Order::Ascending => {
                                    assert(lex_lt(rv[m].0, rv[idx as int].0));
                                },
                                Order::Descending => {
                                    assert(lex_lt(rv[idx as int].0, rv[m].0));
                                },
                            }
                        }
                    }
                    assert forall|m: int|
                        #![trigger rv[m]]
                        0 <= m < n && scanned(order, n as int, step + 1, m) && sel(rv[m].0) implies lists_key(
                            after,
                            rv[m].0,
                        ) by {
                        if m == idx {
                            assert(after[after.len() - 1].0 == rv[m].0);
                        } else {
                            assert(lists_key(before, rv[m].0));
                            let j = choose|j: int| 0 <= j < before.len() && (#[trigger] before[j]).0 == rv[m].0;
                            assert(after[j] == before[j]);
                        }
                    }
                    idxs = idxs.push(idx as int);
                }
            } else {
                proof {
                    assert forall|m: int|
                        #![trigger rv[m]]
                        0 <= m < n && scanned(order, n as int, step + 1, m) && sel(rv[m].0) implies lists_key(
                            before,
                            rv[m].0,
                        ) by {
                        assert(m != idx);
                    }
                }
            }
            step += 1;
        }
        let ghost ov = records_view(out@);
        assert forall|i: int| 0 <= i < ov.len() implies is_selected_record(entries_map(rv), sel, #[trigger] ov[i]) by {
            assert(0 <= idxs[i] < n);
            lemma_entry(rv, idxs[i]);
        }
        assert forall|k: Seq<u8>| #![trigger entries_map(rv).contains_key(k), sel(k)]
            entries_map(rv).contains_key(k) && sel(k) implies lists_key(ov, k) by {
            let m = key_index(rv, k);
            assert(rv[m].0 == k);
            assert(scanned(order, n as int, n as int, m));
        }
        assert forall|a: int, b: int| 0 <= a < b < ov.len() implies ordered(
            #[trigger] ov[a].0,
            #[trigger] ov[b].0,
            order,
        ) by {
            assert(ordered(rv[idxs[a]].0, rv[idxs[b]].0, order));
        }
        out
    }

    fn remove(&mut self, key: &[u8]) {
        proof {
            use_type_invariant(&*self);
        }
        let ghost rv = records_view(self.records@);
        let (i, found) = self.position(key);
        if found {
            let mut recs: Vec<(Vec<u8>, Vec<u8>)> = Vec::new();
            std::mem::swap(&mut recs, &mut self.records);
            let _gone = recs.remove(i);
            let ghost nv = records_view(recs@);
            assert(nv =~= rv.remove(i as int));
            assert(ascending(nv)) by {
                assert forall|a: int, b: int| 0 <= a < b < nv.len() implies lex_lt(
                    #[trigger] nv[a].0,
                    #[trigger] nv[b].0,
                ) by {
                    if b < i {
                        assert(lex_lt(rv[a].0, rv[b].0));
                    } else if a < i {
                        assert(lex_lt(rv[a].0, rv[b + 1].0));
                    } else {
                        assert(lex_lt(rv[a + 1].0, rv[b + 1].0));
                    }
                }
            }
            assert(entries_map(nv) =~= entries_map(rv).remove(key@)) by {
                assert forall|x: Seq<u8>| #[trigger] lists_key(nv, x) == (x != key@ && lists_key(rv, x)) by {
                    if lists_key(rv, x) && x != key@ {
                        let m = choose|m: int| 0 <= m < rv.len() && (#[trigger] rv[m]).0 == x;
                        if m < i {
                            assert(nv[m].0 == x);
                        } else {
                            assert(m != i);
                            assert(nv[m - 1].0 == x);
                        }
                    }
                    if lists_key(nv, x) {
                        let m = choose|m: int| 0 <= m < nv.len() && (#[trigger] nv[m]).0 == x;
                        if m < i {
                            assert(rv[m].0 == x);
                            assert(lex_lt(rv[m].0, rv[i as int].0));
                        } else {
                            assert(rv[m + 1].0 == x);
                            assert(lex_lt(rv[i as int].0, rv[m + 1].0));
                        }
                        if x == key@ {
                            lemma_lex_lt_irreflexive(x);
                        }
                    }
                }
                assert forall|x: Seq<u8>| #[trigger] entries_map(nv).contains_key(x) implies entries_map(nv)[x]
                    == entries_map(rv).remove(key@)[x] by {
                    let m = choose|m: int| 0 <= m < nv.len() && (#[trigger] nv[m]).0 == x;
                    lemma_entry(nv, m);
                    if m < i {
                        lemma_entry(rv, m);
                    } else {
                        lemma_entry(rv, m + 1);
                    }
                }
            }
            self.records = recs;
        } else {
            proof {
                self.lemma_absent(key@, i as int);
                assert(entries_map(rv).remove(key@) =~= entries_map(rv));
            }
        }
    }
}

} // verus!
