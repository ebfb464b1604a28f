//! A storage prefix: the namespace and nested prefixes that every key of a
//! collection starts with, and ranges of keys under it.
use vstd::prelude::*;
use crate::keys::{
    MAX_LENGTH_PREFIXED, all_length_prefixable, byte_views, concat, copy_bytes, extend_one_byte,
    diverge, law_increment_last_byte_bounds_prefix, lemma_diverge_no_common_extension,
    increment_last_byte, nested_namespaces_with_key, spec_increment_last_byte,
    spec_nested_namespaces_with_key, trim,
};
use crate::lex::{
    is_prefix, lemma_between_extends, starts_with, lemma_is_prefix_concat, lemma_lex_le_common_prefix,
    lemma_lex_le_transitive, lemma_lex_lt_common_prefix,
    lemma_lt_push_zero, lemma_prefix_lex_le, lemma_prefix_split, lemma_push_zero_successor, lex_le,
    lex_lt,
};
use crate::map_key::{KeyError, MapKey};
use crate::storage::{
    Order, Storage, in_scan_range, law_descending_listing_reverses, lemma_listing_unique, is_listing, is_selected_record, lists_key, records_view,
    scan_selects, ordered,
};

verus! {

/// One end of a range of keys.
pub enum Bound<K> {
    Unbounded,
    Included(K),
    Excluded(K),
}

/// The first key (included) that a range under prefix `p` starts from.
pub open spec fn range_start<K: MapKey>(p: Seq<u8>, min: Bound<K>) -> Seq<u8> {
    match min {
        Bound::Unbounded => p,
        Bound::Included(k) => p + k.spec_serialize(),
        Bound::Excluded(k) => (p + k.spec_serialize()).push(0),
    }
}

/// The first key (excluded) that a range under prefix `p` stops at.
pub open spec fn range_end<K: MapKey>(p: Seq<u8>, max: Bound<K>) -> Seq<u8> {
    match max {
        Bound::Unbounded => spec_increment_last_byte(p),
        Bound::Included(k) => (p + k.spec_serialize()).push(0),
        Bound::Excluded(k) => p + k.spec_serialize(),
    }
}

/// The records under prefix `p`, keyed by what follows `p`.
pub open spec fn sub_records(records: Map<Seq<u8>, Seq<u8>>, p: Seq<u8>) -> Map<Seq<u8>, Seq<u8>> {
    Map::new(|s: Seq<u8>| records.contains_key(p + s), |s: Seq<u8>| records[p + s])
}

/// The keys after prefix `p` whose full keys the range from `min` to `max` scans.
pub open spec fn prefix_selects<K: MapKey>(p: Seq<u8>, min: Bound<K>, max: Bound<K>) -> spec_fn(Seq<u8>) -> bool {
    |s: Seq<u8>| in_scan_range(p + s, Some(range_start(p, min)), Some(range_end(p, max)))
}

/// Every stored key that the scan for a range under `p` reaches starts with `p`.
pub open spec fn range_stays_under<K: MapKey>(
    records: Map<Seq<u8>, Seq<u8>>,
    p: Seq<u8>,
    min: Bound<K>,
    max: Bound<K>,
) -> bool {
    forall|k: Seq<u8>|
        #![trigger records.contains_key(k)]
        records.contains_key(k) && in_scan_range(k, Some(range_start(p, min)), Some(range_end(p, max)))
            ==> is_prefix(p, k)
}

/// The keys that clearing prefix `p` deletes: those from `p` (included) to
/// `p` with its last byte raised (excluded).
pub open spec fn cleared_keys(p: Seq<u8>) -> Set<Seq<u8>> {
    Set::new(|k: Seq<u8>| in_scan_range(k, Some(p), Some(spec_increment_last_byte(p))))
}

/// The keys listed in `out[..n]`.
pub open spec fn listed_keys(out: Seq<(Seq<u8>, Seq<u8>)>, n: int) -> Set<Seq<u8>> {
    Set::new(|k: Seq<u8>| exists|j: int| 0 <= j < n && (#[trigger] out[j]).0 == k)
}

/// The key after a prefix lies within `min` and `max`, each included or
/// excluded as it says.
pub open spec fn within_bounds<K: MapKey>(s: Seq<u8>, min: Bound<K>, max: Bound<K>) -> bool {
    &&& match min {
        Bound::Unbounded => true,
        Bound::Included(k) => lex_le(k.spec_serialize(), s),
        Bound::Excluded(k) => lex_lt(k.spec_serialize(), s),
    }
    &&& match max {
        Bound::Unbounded => true,
        Bound::Included(k) => lex_le(s, k.spec_serialize()),
        Bound::Excluded(k) => lex_lt(s, k.spec_serialize()),
    }
}

/// `item` is what reading back the key of record `raw` gives: the key with
/// those bytes and the value, or an error where no key has those bytes.
pub open spec fn decodes_item<K: MapKey>(raw: (Seq<u8>, Seq<u8>), item: Result<(K, Vec<u8>), KeyError>) -> bool {
    match item {
        Ok(kv) => kv.0.spec_serialize() == raw.0 && kv.1@ == raw.1,
        Err(e) => e == KeyError::InvalidKey && forall|k: K| #[trigger] k.spec_serialize() != raw.0,
    }
}

/// `out` reads back, item by item, the records of `raw`.
pub open spec fn decodes_listing<K: MapKey>(
    raw: Seq<(Seq<u8>, Seq<u8>)>,
    out: Seq<Result<(K, Vec<u8>), KeyError>>,
) -> bool {
    &&& raw.len() == out.len()
    &&& forall|i: int| 0 <= i < raw.len() ==> decodes_item(raw[i], #[trigger] out[i])
}

/// `out` is what a range under `p` from `min` to `max` in `order` gives:
/// the listing of the records under `p` that the range selects, each read
/// back as a key and a value.
pub open spec fn range_result<K: MapKey>(
    records: Map<Seq<u8>, Seq<u8>>,
    p: Seq<u8>,
    min: Bound<K>,
    max: Bound<K>,
    order: Order,
    out: Seq<Result<(K, Vec<u8>), KeyError>>,
) -> bool {
    exists|raw: Seq<(Seq<u8>, Seq<u8>)>|
        #![trigger decodes_listing(raw, out)]
        is_listing(sub_records(records, p), prefix_selects(p, min, max), order, raw) && decodes_listing(raw, out)
}

/// Two items that read back the same record: the same key bytes and value,
/// or the same error.
pub open spec fn same_item<K: MapKey>(a: Result<(K, Vec<u8>), KeyError>, b: Result<(K, Vec<u8>), KeyError>) -> bool {
    match (a, b) {
        (Ok(x), Ok(y)) => x.0.spec_serialize() == y.0.spec_serialize() && x.1@ == y.1@,
        (Err(e1), Err(e2)) => e1 == e2,
        _ => false,
    }
}

/// The bytes that every key of a collection starts with.
pub struct Prefix {
    prefix: Vec<u8>,
}

impl View for Prefix {
    type V = Seq<u8>;

    closed spec fn view(&self) -> Seq<u8> {
        self.prefix@
    }
}

impl Prefix {
    /// The prefix made of `namespace` and then `prefixes`, each preceded by
    /// its length.
    pub fn new(namespace: &[u8], prefixes: &[Vec<u8>]) -> (p: Self)
        requires
            namespace@.len() <= MAX_LENGTH_PREFIXED,
            all_length_prefixable(byte_views(prefixes@)),
        ensures
            p@ == spec_nested_namespaces_with_key(Some(namespace@), byte_views(prefixes@), None),
    {
        Prefix { prefix: nested_namespaces_with_key(Some(namespace), prefixes, None) }
    }

    /// The first key (included) and the last key (excluded) that the store
    /// scans for the range from `min` to `max` under this prefix.
    fn scan_bounds<K: MapKey>(&self, min: &Bound<K>, max: &Bound<K>) -> (r: (Vec<u8>, Vec<u8>))
        ensures
            r.0@ == range_start(self@, *min),
            r.1@ == range_end(self@, *max),
    {
        let start = match min {
            Bound::Unbounded => copy_bytes(self.prefix.as_slice()),
            Bound::Included(k) => concat(self.prefix.as_slice(), k.serialize().as_slice()),
            Bound::Excluded(k) => extend_one_byte(concat(self.prefix.as_slice(), k.serialize().as_slice())),
        };
        let end = match max {
            Bound::Unbounded => increment_last_byte(copy_bytes(self.prefix.as_slice())),
            Bound::Included(k) => extend_one_byte(concat(self.prefix.as_slice(), k.serialize().as_slice())),
            Bound::Excluded(k) => concat(self.prefix.as_slice(), k.serialize().as_slice()),
        };
        (start, end)
    }

    /// The records under this prefix whose keys, after the prefix, lie in the
    /// range from `min` to `max`, each given as the key bytes after the prefix
    /// and the value, in `order`.
    fn list_under<S: Storage, K: MapKey>(&self, store: &S, min: &Bound<K>, max: &Bound<K>, order: Order) -> (out: Vec<
        (Vec<u8>, Vec<u8>),
    >)
        requires
            range_stays_under(store.records(), self@, *min, *max),
        ensures
            is_listing(
                sub_records(store.records(), self@),
                prefix_selects(self@, *min, *max),
                order,
                records_view(out@),
            ),
    {
        let ghost p = self@;
        let (start, end) = self.scan_bounds(min, max);
        let scanned = store.scan(Some(start.as_slice()), Some(end.as_slice()), order);
        let ghost records = store.records();
        let ghost sel = scan_selects(Some(start@), Some(end@));
        let ghost sv = records_view(scanned@);
        assert(is_listing(records, sel, order, sv));
        let mut out: Vec<(Vec<u8>, Vec<u8>)> = Vec::new();
        let n = scanned.len();
        for i in 0..n
            invariant
                n == scanned@.len(),
                p == self@,
                sv == records_view(scanned@),
                records == store.records(),
                sel == scan_selects(Some(range_start(p, *min)), Some(range_end(p, *max))),
                is_listing(records, sel, order, sv),
                range_stays_under(records, p, *min, *max),
                out@.len() == i,
                forall|j: int|
                    0 <= j < i ==> (#[trigger] records_view(out@)[j]).0 == sv[j].0.subrange(
                        p.len() as int,
                        sv[j].0.len() as int,
                    ) && records_view(out@)[j].1 == sv[j].1 && is_prefix(p, sv[j].0),
        {
            assert(is_selected_record(records, sel, sv[i as int]));
            assert(records.contains_key(sv[i as int].0));
            assert(is_prefix(p, sv[i as int].0));
            let key = trim(self.prefix.as_slice(), scanned[i].0.as_slice());
            let value = copy_bytes(scanned[i].1.as_slice());
            let ghost before = out@;
            out.push((key, value));
            assert forall|j: int| 0 <= j < i + 1 implies (#[trigger] records_view(out@)[j]).0
                == sv[j].0.subrange(p.len() as int, sv[j].0.len() as int)
                && records_view(out@)[j].1 == sv[j].1 && is_prefix(p, sv[j].0) by {
                if j < i {
                    assert(out@[j] == before[j]);
                    assert(records_view(out@)[j] == records_view(before)[j]);
                }
            }
        }
        let ghost ov = records_view(out@);
        let ghost sub = sub_records(records, p);
        let ghost psel = prefix_selects(p, *min, *max);
        assert forall|j: int| 0 <= j < ov.len() implies ov[j].0 == sv[j].0.subrange(
            p.len() as int,
            sv[j].0.len() as int,
        ) && p + ov[j].0 == sv[j].0 by {
            lemma_prefix_split(p, sv[j].0);
        }
        assert forall|j: int| 0 <= j < ov.len() implies is_selected_record(sub, psel, #[trigger] ov[j]) by {
            assert(is_selected_record(records, sel, sv[j]));
        }
        assert forall|s: Seq<u8>| #![trigger sub.contains_key(s), psel(s)]
            sub.contains_key(s) && psel(s) implies lists_key(ov, s) by {
            let k = p + s;
            assert(records.contains_key(k));
            assert(sel(k));
            assert(lists_key(sv, k));
            let i = choose|i: int| 0 <= i < sv.len() && (#[trigger] sv[i]).0 == k;
            assert(k.subrange(p.len() as int, k.len() as int) =~= s);
            assert(ov[i].0 == s);
        }
        assert forall|i: int, j: int| 0 <= i < j < ov.len() implies ordered(
            #[trigger] ov[i].0,
            #[trigger] ov[j].0,
            order,
        ) by {
            assert(ordered(sv[i].0, sv[j].0, order));
            lemma_lex_lt_common_prefix(p, ov[i].0, ov[j].0);
            lemma_lex_lt_common_prefix(p, ov[j].0, ov[i].0);
        }
        out
    }

    /// The records under this prefix whose keys, after the prefix, lie in the
    /// range from `min` to `max`, in `order`: each as the key read back from
    /// its bytes and the value, or an error where no key has those bytes.
    pub fn range<S: Storage, K: MapKey>(&self, store: &S, min: &Bound<K>, max: &Bound<K>, order: Order) -> (out: Vec<
        Result<(K, Vec<u8>), KeyError>,
    >)
        requires
            range_stays_under(store.records(), self@, *min, *max),
        ensures
            range_result(store.records(), self@, *min, *max, order, out@),
    {
        let raw = self.list_under(store, min, max, order);
        let ghost rv = records_view(raw@);
        let n = raw.len();
        let mut out: Vec<Result<(K, Vec<u8>), KeyError>> = Vec::new();
        for i in 0..n
            invariant
                n == raw@.len(),
                rv == records_view(raw@),
                out@.len() == i,
                forall|j: int| 0 <= j < i ==> decodes_item(rv[j], #[trigger] out@[j]),
        {
            let item = match K::deserialize(raw[i].0.as_slice()) {
                Ok(k) => Ok((k, copy_bytes(raw[i].1.as_slice()))),
                Err(e) => Err(e),
            };
            let ghost before = out@;
            out.push(item);
            assert forall|j: int| 0 <= j < i + 1 implies decodes_item(rv[j], #[trigger] out@[j]) by {
                if j < i {
                    assert(out@[j] == before[j]);
                }
            }
        }
        assert(decodes_listing(rv, out@));
        out
    }

    /// Whether every stored key that the scan for the range from `min` to
    /// `max` under this prefix reaches starts with the prefix, as `range`
    /// requires.
    pub fn scan_stays_under<S: Storage, K: MapKey>(&self, store: &S, min: &Bound<K>, max: &Bound<K>) -> (r: bool)
        ensures
            r == range_stays_under(store.records(), self@, *min, *max),
    {
        let ghost p = self@;
        let (start, end) = self.scan_bounds(min, max);
        let scanned = store.scan(Some(start.as_slice()), Some(end.as_slice()), Order::Ascending);
        let ghost records = store.records();
        let ghost sel = scan_selects(Some(start@), Some(end@));
        let ghost sv = records_view(scanned@);
        assert(is_listing(records, sel, Order::Ascending, sv));
        let n = scanned.len();
        for i in 0..n
            invariant
                n == scanned@.len(),
                p == self@,
                sv == records_view(scanned@),
                records == store.records(),
                sel == scan_selects(Some(range_start(p, *min)), Some(range_end(p, *max))),
                is_listing(records, sel, Order::Ascending, sv),
                forall|j: int| 0 <= j < i ==> is_prefix(p, #[trigger] sv[j].0),
        {
            if !starts_with(self.prefix.as_slice(), scanned[i].0.as_slice()) {
                assert(scanned@[i as int].0@ == sv[i as int].0);
                assert(is_selected_record(records, sel, sv[i as int]));
                assert(records.contains_key(sv[i as int].0));
                return false;
            }
            assert(scanned@[i as int].0@ == sv[i as int].0);
        }
        assert forall|k: Seq<u8>| #![trigger records.contains_key(k)]
            records.contains_key(k) && in_scan_range(k, Some(range_start(p, *min)), Some(range_end(p, *max)))
                implies is_prefix(p, k) by {
            assert(sel(k));
            assert(lists_key(sv, k));
        }
        true
    }

    /// Deletes every record from this prefix (included) to this prefix with
    /// its last byte raised (excluded). When the last byte is below 0xff these
    /// are exactly the records under the prefix; when it is 0xff the carry
    /// also takes in keys that lie outside the prefix (`q ++ [0xff]` clears
    /// the key `q` raised by one too), and a prefix of only 0xff bytes clears
    /// nothing.
    pub fn clear<S: Storage>(&self, store: &mut S)
        ensures
            final(store).records() == old(store).records().remove_keys(cleared_keys(self@)),
    {
        let ghost p = self@;
        let start = copy_bytes(self.prefix.as_slice());
        let end = increment_last_byte(copy_bytes(self.prefix.as_slice()));
        let scanned = store.scan(Some(start.as_slice()), Some(end.as_slice()), Order::Ascending);
        let ghost records = store.records();
        let ghost sel = scan_selects(Some(start@), Some(end@));
        let ghost sv = records_view(scanned@);
        assert(is_listing(records, sel, Order::Ascending, sv));
        let n = scanned.len();
        assert(records.remove_keys(listed_keys(sv, 0)) =~= records);
        for i in 0..n
            invariant
                n == scanned@.len(),
                sv == records_view(scanned@),
                store.records() == records.remove_keys(listed_keys(sv, i as int)),
        {
            let ghost before = store.records();
            store.remove(scanned[i].0.as_slice());
            assert(scanned@[i as int].0@ == sv[i as int].0);
            assert(store.records() =~= records.remove_keys(listed_keys(sv, i + 1))) by {
                assert forall|k: Seq<u8>| listed_keys(sv, i + 1).contains(k) <==> (listed_keys(
                    sv,
                    i as int,
                ).contains(k) || k == sv[i as int].0) by {
                    if listed_keys(sv, i + 1).contains(k) && k != sv[i as int].0 {
                        let j = choose|j: int| 0 <= j < i + 1 && (#[trigger] sv[j]).0 == k;
                        assert(j < i);
                    }
                    if listed_keys(sv, i as int).contains(k) {
                        let j = choose|j: int| 0 <= j < i && (#[trigger] sv[j]).0 == k;
                        assert(0 <= j < i + 1 && sv[j].0 == k);
                    }
                    if k == sv[i as int].0 {
                        assert(0 <= i < i + 1 && sv[i as int].0 == k);
                    }
                }
            }
        }
        assert(store.records() =~= records.remove_keys(cleared_keys(p))) by {
            assert forall|k: Seq<u8>| records.contains_key(k) implies (listed_keys(sv, n as int).contains(k)
                <==> cleared_keys(p).contains(k)) by {
                if listed_keys(sv, n as int).contains(k) {
                    let j = choose|j: int| 0 <= j < n && (#[trigger] sv[j]).0 == k;
                    assert(is_selected_record(records, sel, sv[j]));
                }
                if cleared_keys(p).contains(k) {
                    assert(sel(k));
                    assert(lists_key(sv, k));
                }
            }
        }
    }
}

/// The scan for a range under a prefix reaches only keys under the prefix,
/// whatever the store holds, when the range has an upper bound or the
/// prefix ends in a byte below 0xff.
pub proof fn law_range_stays_under_prefix<K: MapKey>(
    records: Map<Seq<u8>, Seq<u8>>,
    p: Seq<u8>,
    min: Bound<K>,
    max: Bound<K>,
)
    requires
        max is Unbounded ==> p.len() > 0 && p.last() < 255,
    ensures
        range_stays_under(records, p, min, max),
{
    let start = range_start(p, min);
    let end = range_end(p, max);
    assert(lex_le(p, start)) by {
        match min {
            Bound::Unbounded => {},
            Bound::Included(k) => {
                lemma_is_prefix_concat(p, k.spec_serialize());
                lemma_prefix_lex_le(p, p + k.spec_serialize());
            },
            Bound::Excluded(k) => {
                assert((p + k.spec_serialize()).push(0) =~= p + k.spec_serialize().push(0));
                lemma_is_prefix_concat(p, k.spec_serialize().push(0));
                lemma_prefix_lex_le(p, p + k.spec_serialize().push(0));
            },
        }
    }
    assert forall|k: Seq<u8>| #![trigger records.contains_key(k)]
        records.contains_key(k) && in_scan_range(k, Some(start), Some(end)) implies is_prefix(p, k) by {
        lemma_lex_le_transitive(p, start, k);
        match max {
            Bound::Unbounded => {
                law_increment_last_byte_bounds_prefix(p, k);
            },
            Bound::Included(x) => {
                assert((p + x.spec_serialize()).push(0) =~= p + x.spec_serialize().push(0));
                lemma_is_prefix_concat(p, x.spec_serialize().push(0));
                lemma_between_extends(p, k, end);
            },
            Bound::Excluded(x) => {
                lemma_is_prefix_concat(p, x.spec_serialize());
                lemma_between_extends(p, k, end);
            },
        }
    }
}

/// A range under a prefix selects exactly the keys, after the prefix, that
/// lie within its bounds, when the range has an upper bound or the prefix
/// ends in a byte below 0xff.
pub proof fn law_range_selects_within_bounds<K: MapKey>(p: Seq<u8>, s: Seq<u8>, min: Bound<K>, max: Bound<K>)
    requires
        max is Unbounded ==> p.len() > 0 && p.last() < 255,
    ensures
        prefix_selects(p, min, max)(s) == within_bounds(s, min, max),
{
    let k = p + s;
    lemma_is_prefix_concat(p, s);
    let lower = lex_le(range_start(p, min), k);
    let upper = lex_lt(k, range_end(p, max));
    match min {
        Bound::Unbounded => {
            lemma_prefix_lex_le(p, k);
        },
        Bound::Included(x) => {
            lemma_lex_le_common_prefix(p, x.spec_serialize(), s);
        },
        Bound::Excluded(x) => {
            assert((p + x.spec_serialize()).push(0) =~= p + x.spec_serialize().push(0));
            lemma_lex_le_common_prefix(p, x.spec_serialize().push(0), s);
            lemma_push_zero_successor(x.spec_serialize(), s);
        },
    }
    match max {
        Bound::Unbounded => {
            law_increment_last_byte_bounds_prefix(p, k);
        },
        Bound::Included(x) => {
            assert((p + x.spec_serialize()).push(0) =~= p + x.spec_serialize().push(0));
            lemma_lex_lt_common_prefix(p, s, x.spec_serialize().push(0));
            lemma_lt_push_zero(s, x.spec_serialize());
        },
        Bound::Excluded(x) => {
            lemma_lex_lt_common_prefix(p, s, x.spec_serialize());
        },
    }
}

/// Clearing a prefix whose last byte is below 0xff deletes exactly the keys
/// that start with it.
pub proof fn law_clear_removes_prefix(p: Seq<u8>)
    requires
        p.len() > 0,
        p.last() < 255,
    ensures
        cleared_keys(p) == Set::new(|k: Seq<u8>| is_prefix(p, k)),
{
    assert forall|k: Seq<u8>| cleared_keys(p).contains(k) == is_prefix(p, k) by {
        law_increment_last_byte_bounds_prefix(p, k);
    }
    assert(cleared_keys(p) =~= Set::new(|k: Seq<u8>| is_prefix(p, k)));
}

/// After clearing a prefix whose last byte is below 0xff, no record is left
/// under it, so every range under it lists nothing.
pub proof fn law_nothing_under_prefix_after_clear(records: Map<Seq<u8>, Seq<u8>>, p: Seq<u8>)
    requires
        p.len() > 0,
        p.last() < 255,
    ensures
        sub_records(records.remove_keys(cleared_keys(p)), p) == Map::<Seq<u8>, Seq<u8>>::empty(),
{
    assert forall|s: Seq<u8>| !sub_records(records.remove_keys(cleared_keys(p)), p).contains_key(s) by {
        lemma_is_prefix_concat(p, s);
        law_increment_last_byte_bounds_prefix(p, p + s);
    }
    assert(sub_records(records.remove_keys(cleared_keys(p)), p) =~= Map::<Seq<u8>, Seq<u8>>::empty());
}

proof fn lemma_decoded_same<K: MapKey>(raw: (Seq<u8>, Seq<u8>), a: Result<(K, Vec<u8>), KeyError>, b: Result<(K, Vec<u8>), KeyError>)
    requires
        decodes_item(raw, a),
        decodes_item(raw, b),
    ensures
        same_item(a, b),
{
    match a {
        Ok(x) => {
            if let Err(_) = b {
                assert(x.0.spec_serialize() != raw.0);
            }
        },
        Err(_) => {
            if let Ok(y) = b {
                assert(y.0.spec_serialize() != raw.0);
            }
        },
    }
}

/// A range listed in descending order gives, item for item, the same range
/// listed in ascending order reversed.
pub proof fn law_descending_range_reverses<K: MapKey>(
    records: Map<Seq<u8>, Seq<u8>>,
    p: Seq<u8>,
    min: Bound<K>,
    max: Bound<K>,
    asc: Seq<Result<(K, Vec<u8>), KeyError>>,
    desc: Seq<Result<(K, Vec<u8>), KeyError>>,
)
    requires
        range_result(records, p, min, max, Order::Ascending, asc),
        range_result(records, p, min, max, Order::Descending, desc),
    ensures
        desc.len() == asc.len(),
        forall|i: int| 0 <= i < desc.len() ==> same_item(#[trigger] desc[i], asc[asc.len() - 1 - i]),
{
    let sub = sub_records(records, p);
    let sel = prefix_selects(p, min, max);
    let ra = choose|raw: Seq<(Seq<u8>, Seq<u8>)>|
        #![trigger decodes_listing(raw, asc)]
        is_listing(sub, sel, Order::Ascending, raw) && decodes_listing(raw, asc);
    let rd = choose|raw: Seq<(Seq<u8>, Seq<u8>)>|
        #![trigger decodes_listing(raw, desc)]
        is_listing(sub, sel, Order::Descending, raw) && decodes_listing(raw, desc);
    law_descending_listing_reverses(sub, sel, ra, rd);
    assert forall|i: int| 0 <= i < desc.len() implies same_item(#[trigger] desc[i], asc[asc.len() - 1 - i]) by {
        assert(rd[i] == ra[ra.len() - 1 - i]);
        assert(decodes_item(rd[i], desc[i]));
        assert(decodes_item(ra[ra.len() - 1 - i], asc[asc.len() - 1 - i]));
        lemma_decoded_same(rd[i], desc[i], asc[asc.len() - 1 - i]);
    }
}

/// Writing or deleting a key under a prefix `b` leaves every range under a
/// prefix `a` that diverges from `b` as it was, item for item.
pub proof fn law_write_elsewhere_keeps_range<K: MapKey>(
    records: Map<Seq<u8>, Seq<u8>>,
    after: Map<Seq<u8>, Seq<u8>>,
    a: Seq<u8>,
    b: Seq<u8>,
    k: Seq<u8>,
    v: Seq<u8>,
    min: Bound<K>,
    max: Bound<K>,
    order: Order,
    before_out: Seq<Result<(K, Vec<u8>), KeyError>>,
    after_out: Seq<Result<(K, Vec<u8>), KeyError>>,
)
    requires
        diverge(a, b),
        is_prefix(b, k),
        after == records.insert(k, v) || after == records.remove(k),
        range_result(records, a, min, max, order, before_out),
        range_result(after, a, min, max, order, after_out),
    ensures
        after_out.len() == before_out.len(),
        forall|i: int| 0 <= i < after_out.len() ==> same_item(#[trigger] after_out[i], before_out[i]),
{
    let sel = prefix_selects(a, min, max);
    assert(sub_records(after, a) =~= sub_records(records, a)) by {
        assert forall|s: Seq<u8>| #![trigger (a + s)] a + s != k by {
            lemma_is_prefix_concat(a, s);
            lemma_diverge_no_common_extension(a, b, a + s);
        }
    }
    let r1 = choose|raw: Seq<(Seq<u8>, Seq<u8>)>|
        #![trigger decodes_listing(raw, before_out)]
        is_listing(sub_records(records, a), sel, order, raw) && decodes_listing(raw, before_out);
    let r2 = choose|raw: Seq<(Seq<u8>, Seq<u8>)>|
        #![trigger decodes_listing(raw, after_out)]
        is_listing(sub_records(after, a), sel, order, raw) && decodes_listing(raw, after_out);
    lemma_listing_unique(sub_records(records, a), sel, order, r1, r2);
    assert forall|i: int| 0 <= i < after_out.len() implies same_item(#[trigger] after_out[i], before_out[i]) by {
        assert(decodes_item(r2[i], after_out[i]));
        assert(decodes_item(r1[i], before_out[i]));
        lemma_decoded_same(r1[i], after_out[i], before_out[i]);
    }
}

} // verus!
