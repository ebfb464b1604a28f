use grug::map_key::KeyError;
use grug::mock::MockStorage;
use grug::prefix::{Bound, Prefix};
use grug::storage::{Order, Storage};

type Item = Result<(Vec<u8>, Vec<u8>), KeyError>;

fn list(prefix: &Prefix, store: &MockStorage, min: Bound<Vec<u8>>, max: Bound<Vec<u8>>, order: Order) -> Vec<Item> {
    assert!(prefix.scan_stays_under(store, &min, &max));
    prefix.range(store, &min, &max, order)
}

fn key_under(namespace: &[u8], sub: &[u8], rest: &[u8]) -> Vec<u8> {
    let mut key = vec![0u8, namespace.len() as u8];
    key.extend_from_slice(namespace);
    key.extend_from_slice(&[0, sub.len() as u8]);
    key.extend_from_slice(sub);
    key.extend_from_slice(rest);
    key
}

fn balances() -> MockStorage {
    let mut store = MockStorage::new();
    store.write(&key_under(b"bal", b"alice", b"atom"), b"100");
    store.write(&key_under(b"bal", b"alice", b"osmo"), b"888");
    store.write(&key_under(b"bal", b"alice", b"usdc"), b"5");
    store.write(&key_under(b"bal", b"bob", b"atom"), b"50");
    store.write(b"other", b"1");
    store
}

fn pair(k: &[u8], v: &[u8]) -> (Vec<u8>, Vec<u8>) {
    (k.to_vec(), v.to_vec())
}

fn ok(k: &[u8], v: &[u8]) -> Item {
    Ok(pair(k, v))
}

#[test]
fn new_encodes_namespace_and_prefixes() {
    let store = balances();
    let prefix = Prefix::new(b"bal", &[b"alice".to_vec()]);
    let out = list(&prefix, &store, Bound::Unbounded, Bound::Unbounded, Order::Ascending);
    assert_eq!(out.len(), 3);
}

#[test]
fn range_unbounded_ascending() {
    let store = balances();
    let prefix = Prefix::new(b"bal", &[b"alice".to_vec()]);
    let out = list(&prefix, &store, Bound::Unbounded, Bound::Unbounded, Order::Ascending);
    assert_eq!(out, vec![ok(b"atom", b"100"), ok(b"osmo", b"888"), ok(b"usdc", b"5")]);
}

#[test]
fn range_unbounded_descending() {
    let store = balances();
    let prefix = Prefix::new(b"bal", &[b"alice".to_vec()]);
    let out = list(&prefix, &store, Bound::Unbounded, Bound::Unbounded, Order::Descending);
    assert_eq!(out, vec![ok(b"usdc", b"5"), ok(b"osmo", b"888"), ok(b"atom", b"100")]);
}

#[test]
fn range_included_bounds() {
    let store = balances();
    let prefix = Prefix::new(b"bal", &[b"alice".to_vec()]);
    let out = list(&prefix, &store, Bound::Included(b"osmo".to_vec()), Bound::Included(b"usdc".to_vec()), Order::Ascending);
    assert_eq!(out, vec![ok(b"osmo", b"888"), ok(b"usdc", b"5")]);
}

#[test]
fn range_excluded_bounds() {
    let store = balances();
    let prefix = Prefix::new(b"bal", &[b"alice".to_vec()]);
    let out = list(&prefix, &store, Bound::Excluded(b"atom".to_vec()), Bound::Excluded(b"usdc".to_vec()), Order::Ascending);
    assert_eq!(out, vec![ok(b"osmo", b"888")]);
}

#[test]
fn range_excluded_lower_skips_only_that_key() {
    let mut store = balances();
    store.write(&key_under(b"bal", b"alice", b"atom\x00"), b"7");
    let prefix = Prefix::new(b"bal", &[b"alice".to_vec()]);
    let out = list(&prefix, &store, Bound::Excluded(b"atom".to_vec()), Bound::Unbounded, Order::Ascending);
    assert_eq!(out[0], ok(b"atom\x00", b"7"));
    assert_eq!(out.len(), 3);
}

#[test]
fn range_of_empty_prefix_collection() {
    let store = balances();
    let prefix = Prefix::new(b"bal", &[b"carol".to_vec()]);
    let out = list(&prefix, &store, Bound::Unbounded, Bound::Unbounded, Order::Ascending);
    assert!(out.is_empty());
}

#[test]
fn clear_removes_only_the_prefix() {
    let mut store = balances();
    let prefix = Prefix::new(b"bal", &[b"alice".to_vec()]);
    prefix.clear(&mut store);
    assert!(list(&prefix, &store, Bound::Unbounded, Bound::Unbounded, Order::Ascending).is_empty());
    assert_eq!(store.read(&key_under(b"bal", b"bob", b"atom")), Some(b"50".to_vec()));
    assert_eq!(store.read(b"other"), Some(b"1".to_vec()));
    let all = store.scan(None, None, Order::Ascending);
    assert_eq!(all.len(), 2);
}

#[test]
fn clear_of_outer_prefix_removes_nested_collections() {
    let mut store = balances();
    let prefix = Prefix::new(b"bal", &[]);
    prefix.clear(&mut store);
    assert_eq!(store.scan(None, None, Order::Ascending), vec![pair(b"other", b"1")]);
}

#[test]
fn sibling_prefixes_do_not_overlap() {
    let mut store = MockStorage::new();
    // "alic" followed by "eatom" shares its bytes with "alice" + "atom" only
    // up to the length header, which keeps the two collections apart.
    store.write(&key_under(b"bal", b"alic", b"eatom"), b"1");
    store.write(&key_under(b"bal", b"alice", b"atom"), b"2");
    let alice = Prefix::new(b"bal", &[b"alice".to_vec()]);
    let alic = Prefix::new(b"bal", &[b"alic".to_vec()]);
    assert_eq!(
        list(&alice, &store, Bound::Unbounded, Bound::Unbounded, Order::Ascending),
        vec![ok(b"atom", b"2")]
    );
    assert_eq!(
        list(&alic, &store, Bound::Unbounded, Bound::Unbounded, Order::Ascending),
        vec![ok(b"eatom", b"1")]
    );
}

#[test]
fn range_included_upper_bound_keeps_longer_keys_out() {
    let mut store = balances();
    store.write(&key_under(b"bal", b"alice", b"osmo\x00"), b"9");
    let prefix = Prefix::new(b"bal", &[b"alice".to_vec()]);
    let out = list(&prefix, &store, Bound::Unbounded, Bound::Included(b"osmo".to_vec()), Order::Descending);
    assert_eq!(out, vec![ok(b"osmo", b"888"), ok(b"atom", b"100")]);
}

#[test]
fn range_reads_keys_back_and_reports_bad_ones() {
    let mut store = MockStorage::new();
    store.write(&key_under(b"seq", b"x", &7u64.to_be_bytes()), b"seven");
    store.write(&key_under(b"seq", b"x", &300u64.to_be_bytes()), b"three hundred");
    store.write(&key_under(b"seq", b"x", b"bad"), b"?");
    let prefix = Prefix::new(b"seq", &[b"x".to_vec()]);
    assert!(prefix.scan_stays_under(&store, &Bound::<u64>::Unbounded, &Bound::Unbounded));
    let out = prefix.range(&store, &Bound::<u64>::Unbounded, &Bound::Unbounded, Order::Ascending);
    assert_eq!(
        out,
        vec![Ok((7u64, b"seven".to_vec())), Ok((300u64, b"three hundred".to_vec())), Err(KeyError::InvalidKey)]
    );
    let out = prefix.range(&store, &Bound::Excluded(7u64), &Bound::Included(300u64), Order::Ascending);
    assert_eq!(out, vec![Ok((300u64, b"three hundred".to_vec()))]);
}

#[test]
fn descending_is_ascending_reversed() {
    let store = balances();
    let prefix = Prefix::new(b"bal", &[b"alice".to_vec()]);
    let mut asc = list(&prefix, &store, Bound::Unbounded, Bound::Unbounded, Order::Ascending);
    let desc = list(&prefix, &store, Bound::Unbounded, Bound::Unbounded, Order::Descending);
    asc.reverse();
    assert_eq!(asc, desc);
}

#[test]
fn writes_in_another_namespace_leave_range_unchanged() {
    let mut store = balances();
    let prefix = Prefix::new(b"bal", &[b"alice".to_vec()]);
    let before = list(&prefix, &store, Bound::Unbounded, Bound::Unbounded, Order::Ascending);
    store.write(&key_under(b"ba", b"lalice", b"atom"), b"0");
    store.write(&key_under(b"bal", b"alicf", b""), b"0");
    store.remove(&key_under(b"bal", b"bob", b"atom"));
    let after = list(&prefix, &store, Bound::Unbounded, Bound::Unbounded, Order::Ascending);
    assert_eq!(before, after);
}

#[test]
fn scan_stays_under_detects_keys_past_a_0xff_prefix() {
    let mut store = MockStorage::new();
    let prefix = Prefix::new(b"n", &[vec![0xff]]);
    assert!(prefix.scan_stays_under(&store, &Bound::<Vec<u8>>::Unbounded, &Bound::Unbounded));
    // The prefix is [0, 1, 'n', 0, 1, 0xff]; raised by one it is [0, 1, 'n', 0, 2, 0].
    store.write(&[0, 1, b'n', 0, 2], b"outside");
    assert!(!prefix.scan_stays_under(&store, &Bound::<Vec<u8>>::Unbounded, &Bound::Unbounded));
    assert!(prefix.scan_stays_under(&store, &Bound::<Vec<u8>>::Unbounded, &Bound::Excluded(vec![5])));
}
