//! The key-value store that prefixes range over, and what a scan of it lists.
use vstd::prelude::*;
use crate::lex::{lemma_lex_lt_asymmetric, lemma_lex_lt_irreflexive, lex_le, lex_lt};

verus! {

/// The order in which a scan lists its records.
#[derive(Clone, Copy, Debug, PartialEq, Eq, Structural)]
pub enum Order {
    Ascending,
    Descending,
}

/// `a` comes strictly before `b` when listing in `order`.
pub open spec fn ordered(a: Seq<u8>, b: Seq<u8>, order: Order) -> bool {
    match order {
        Order::Ascending => lex_lt(a, b),
        Order::Descending => lex_lt(b, a),
    }
}

/// `k` lies at or after `min` (when given) and strictly before `max` (when given).
pub open spec fn in_scan_range(k: Seq<u8>, min: Option<Seq<u8>>, max: Option<Seq<u8>>) -> bool {
    &&& (min matches Some(m) ==> lex_le(m, k))
    &&& (max matches Some(m) ==> lex_lt(k, m))
}

/// The view of an optional byte slice.
pub open spec fn opt_view(b: Option<&[u8]>) -> Option<Seq<u8>> {
    match b {
        Some(s) => Some(s@),
        None => None,
    }
}

/// The byte strings of a list of key-value records.
pub open spec fn records_view(v: Seq<(Vec<u8>, Vec<u8>)>) -> Seq<(Seq<u8>, Seq<u8>)> {
    v.map_values(|r: (Vec<u8>, Vec<u8>)| (r.0@, r.1@))
}

/// `e` is a record of `records` whose key is selected.
pub open spec fn is_selected_record(
    records: Map<Seq<u8>, Seq<u8>>,
    selected: spec_fn(Seq<u8>) -> bool,
    e: (Seq<u8>, Seq<u8>),
) -> bool {
    &&& records.contains_key(e.0)
    &&& records[e.0] == e.1
    &&& selected(e.0)
}

/// Some entry of `out` has key `k`.
pub open spec fn lists_key(out: Seq<(Seq<u8>, Seq<u8>)>, k: Seq<u8>) -> bool {
    exists|i: int| 0 <= i < out.len() && (#[trigger] out[i]).0 == k
}

/// `out` lists exactly the records of `records` whose keys are selected,
/// each once, in `order` of their keys.
pub open spec fn is_listing(
    records: Map<Seq<u8>, Seq<u8>>,
    selected: spec_fn(Seq<u8>) -> bool,
    order: Order,
    out: Seq<(Seq<u8>, Seq<u8>)>,
) -> bool {
    &&& forall|i: int| 0 <= i < out.len() ==> is_selected_record(records, selected, #[trigger] out[i])
    &&& forall|k: Seq<u8>| #![trigger records.contains_key(k), selected(k)]
        records.contains_key(k) && selected(k) ==> lists_key(out, k)
    &&& forall|i: int, j: int|
        0 <= i < j < out.len() ==> ordered(#[trigger] out[i].0, #[trigger] out[j].0, order)
}

/// The keys that a scan from `min` (included) to `max` (excluded) selects.
pub open spec fn scan_selects(min: Option<Seq<u8>>, max: Option<Seq<u8>>) -> spec_fn(Seq<u8>) -> bool {
    |k: Seq<u8>| in_scan_range(k, min, max)
}

proof fn lemma_ordered_asymmetric(a: Seq<u8>, b: Seq<u8>, order: Order)
    requires
        ordered(a, b, order),
    ensures
        !ordered(b, a, order),
        a != b,
{
    match order {
        Order::Ascending => {
            lemma_lex_lt_asymmetric(a, b);
            if a == b {
                lemma_lex_lt_irreflexive(a);
            }
        },
        Order::Descending => {
            lemma_lex_lt_asymmetric(b, a);
            if a == b {
                lemma_lex_lt_irreflexive(a);
            }
        },
    }
}

/// A listing of the selected records in a given order is unique.
pub proof fn lemma_listing_unique(
    records: Map<Seq<u8>, Seq<u8>>,
    selected: spec_fn(Seq<u8>) -> bool,
    order: Order,
    x: Seq<(Seq<u8>, Seq<u8>)>,
    y: Seq<(Seq<u8>, Seq<u8>)>,
)
    requires
        is_listing(records, selected, order, x),
        is_listing(records, selected, order, y),
    ensures
        x == y,
    decreases x.len() + y.len(),
{
    if x.len() == 0 || y.len() == 0 {
        if y.len() > 0 {
            assert(is_selected_record(records, selected, y[0]));
            assert(lists_key(x, y[0].0));
        }
        if x.len() > 0 {
            assert(is_selected_record(records, selected, x[0]));
            assert(lists_key(y, x[0].0));
        }
        assert(x =~= y);
    } else {
        let k0 = x[0].0;
        assert(is_selected_record(records, selected, x[0]));
        assert(is_selected_record(records, selected, y[0]));
        assert(lists_key(x, y[0].0));
        assert(lists_key(y, k0));
        if k0 != y[0].0 {
            let j = choose|j: int| 0 <= j < x.len() && (#[trigger] x[j]).0 == y[0].0;
            let m = choose|m: int| 0 <= m < y.len() && (#[trigger] y[m]).0 == k0;
            assert(j > 0 && m > 0);
            assert(ordered(x[0].0, x[j].0, order));
            assert(ordered(y[0].0, y[m].0, order));
            lemma_ordered_asymmetric(k0, y[0].0, order);
        }
        assert(x[0] == y[0]);
        let rest = |k: Seq<u8>| selected(k) && k != k0;
        let xs = x.drop_first();
        let ys = y.drop_first();
        assert forall|i: int| 0 <= i < xs.len() implies is_selected_record(records, rest, #[trigger] xs[i]) by {
            assert(xs[i] == x[i + 1]);
            assert(is_selected_record(records, selected, x[i + 1]));
            assert(ordered(x[0].0, x[i + 1].0, order));
            lemma_ordered_asymmetric(x[0].0, x[i + 1].0, order);
        }
        assert forall|i: int| 0 <= i < ys.len() implies is_selected_record(records, rest, #[trigger] ys[i]) by {
            assert(ys[i] == y[i + 1]);
            assert(is_selected_record(records, selected, y[i + 1]));
            assert(ordered(y[0].0, y[i + 1].0, order));
            lemma_ordered_asymmetric(y[0].0, y[i + 1].0, order);
        }
        assert forall|k: Seq<u8>| #![trigger records.contains_key(k), rest(k)]
            records.contains_key(k) && rest(k) implies lists_key(xs, k) && lists_key(ys, k) by {
            assert(lists_key(x, k));
            assert(lists_key(y, k));
            let j = choose|j: int| 0 <= j < x.len() && (#[trigger] x[j]).0 == k;
            let m = choose|m: int| 0 <= m < y.len() && (#[trigger] y[m]).0 == k;
            assert(xs[j - 1] == x[j]);
            assert(ys[m - 1] == y[m]);
        }
        assert forall|i: int, j: int| 0 <= i < j < xs.len() implies ordered(
            #[trigger] xs[i].0,
            #[trigger] xs[j].0,
            order,
        ) by {
            assert(xs[i] == x[i + 1] && xs[j] == x[j + 1]);
        }
        assert forall|i: int, j: int| 0 <= i < j < ys.len() implies ordered(
            #[trigger] ys[i].0,
            #[trigger] ys[j].0,
            order,
        ) by {
            assert(ys[i] == y[i + 1] && ys[j] == y[j + 1]);
        }
        lemma_listing_unique(records, rest, order, xs, ys);
        assert(x =~= seq![x[0]] + xs);
        assert(y =~= seq![y[0]] + ys);
    }
}

/// Listing the same records in descending order gives the ascending listing
/// reversed.
pub proof fn law_descending_listing_reverses(
    records: Map<Seq<u8>, Seq<u8>>,
    selected: spec_fn(Seq<u8>) -> bool,
    asc: Seq<(Seq<u8>, Seq<u8>)>,
    desc: Seq<(Seq<u8>, Seq<u8>)>,
)
    requires
        is_listing(records, selected, Order::Ascending, asc),
        is_listing(records, selected, Order::Descending, desc),
    ensures
        desc == asc.reverse(),
{
    let r = asc.reverse();
    assert forall|i: int| 0 <= i < r.len() implies is_selected_record(records, selected, #[trigger] r[i]) by {
        assert(r[i] == asc[asc.len() - 1 - i]);
    }
    assert forall|k: Seq<u8>| #![trigger records.contains_key(k), selected(k)]
        records.contains_key(k) && selected(k) implies lists_key(r, k) by {
        assert(lists_key(asc, k));
        let j = choose|j: int| 0 <= j < asc.len() && (#[trigger] asc[j]).0 == k;
        assert(r[asc.len() - 1 - j] == asc[j]);
    }
    assert forall|i: int, j: int| 0 <= i < j < r.len() implies ordered(
        #[trigger] r[i].0,
        #[trigger] r[j].0,
        Order::Descending,
    ) by {
        assert(r[i] == asc[asc.len() - 1 - i] && r[j] == asc[asc.len() - 1 - j]);
        assert(ordered(asc[asc.len() - 1 - j].0, asc[asc.len() - 1 - i].0, Order::Ascending));
    }
    lemma_listing_unique(records, selected, Order::Descending, desc, r);
}

/// A key-value store with byte keys and byte values, ordered by key, for
/// users to implement. What a method's contract states is believed of every
/// implementation; `MockStorage` proves it of its own.
pub trait Storage {
    /// The records that the store holds.
    spec fn records(&self) -> Map<Seq<u8>, Seq<u8>>;

    /// The records whose keys lie from `min` (included) to `max` (excluded),
    /// in `order` of their keys.
    fn scan(&self, min: Option<&[u8]>, max: Option<&[u8]>, order: Order) -> (out: Vec<(Vec<u8>, Vec<u8>)>)
        ensures
            is_listing(self.records(), scan_selects(opt_view(min), opt_view(max)), order, records_view(out@)),
    ;

    /// Deletes the record with key `key`, if there is one.
    fn remove(&mut self, key: &[u8])
        ensures
            final(self).records() == old(self).records().remove(key@),
    ;
}

} // verus!
