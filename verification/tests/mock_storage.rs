use grug::mock::MockStorage;
use grug::storage::{Order, Storage};

#[test]
fn write_read_overwrite() {
    let mut store = MockStorage::new();
    assert_eq!(store.read(b"a"), None);
    store.write(b"a", b"1");
    assert_eq!(store.read(b"a"), Some(b"1".to_vec()));
    store.write(b"a", b"2");
    assert_eq!(store.read(b"a"), Some(b"2".to_vec()));
    assert_eq!(store.scan(None, None, Order::Ascending).len(), 1);
}

#[test]
fn remove_deletes_and_ignores_missing() {
    let mut store = MockStorage::new();
    store.write(b"a", b"1");
    store.write(b"b", b"2");
    store.remove(b"a");
    store.remove(b"zzz");
    assert_eq!(store.read(b"a"), None);
    assert_eq!(store.scan(None, None, Order::Ascending), vec![(b"b".to_vec(), b"2".to_vec())]);
}

#[test]
fn scan_orders_and_bounds() {
    let mut store = MockStorage::new();
    for k in [b"d".as_slice(), b"b", b"a", b"c", b"ab"] {
        store.write(k, k);
    }
    let keys: Vec<Vec<u8>> = store.scan(None, None, Order::Ascending).into_iter().map(|(k, _)| k).collect();
    assert_eq!(keys, vec![b"a".to_vec(), b"ab".to_vec(), b"b".to_vec(), b"c".to_vec(), b"d".to_vec()]);
    let keys: Vec<Vec<u8>> =
        store.scan(Some(b"ab"), Some(b"c"), Order::Descending).into_iter().map(|(k, _)| k).collect();
    assert_eq!(keys, vec![b"b".to_vec(), b"ab".to_vec()]);
}
