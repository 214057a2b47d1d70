use inspace::api::bucket::Bucket;
use inspace::api::cursor::{Cursor, ToBuckets, ToKVPairs};
use inspace::api::tree::{Leaf, Node};
use inspace::api::tx::Tx;
use inspace::db::read::Bound;
use inspace::error::Error;

/// A committed database that holds the empty bucket `abc`.
fn with_bucket() -> Node {
    let mut tx = Tx::new(Node::new(), 1, true);
    tx.create_bucket(b"abc").unwrap();
    tx.commit().unwrap().0
}

fn is_read_only<T>(r: Result<T, Error>) -> bool {
    matches!(r, Err(Error::ReadOnlyTx))
}

fn is_incompatible<T>(r: Result<T, Error>) -> bool {
    matches!(r, Err(Error::IncompatibleValue))
}

#[test]
fn ro_tx_put_data() {
    let mut tx = Tx::new(with_bucket(), 1, false);
    let mut b = tx.get_bucket(b"abc").unwrap();
    assert!(is_read_only(b.put(b"abc", b"def".to_vec())));
}

#[test]
fn ro_tx_delete_data() {
    let mut tx = Tx::new(with_bucket(), 1, false);
    let mut b = tx.get_bucket(b"abc").unwrap();
    assert!(is_read_only(b.delete(b"abc")));
}

#[test]
fn ro_tx_delete_bucket() {
    let mut tx = Tx::new(with_bucket(), 1, false);
    let mut b = tx.get_bucket(b"abc").unwrap();
    assert!(is_read_only(b.delete_bucket(b"abc")));
}

#[test]
fn ro_tx_get_or_create_bucket() {
    let mut tx = Tx::new(with_bucket(), 1, false);
    let mut b = tx.get_bucket(b"abc").unwrap();
    assert!(is_read_only(b.get_or_create_bucket(b"abc")));
}

#[test]
fn ro_tx_create_bucket() {
    let mut tx = Tx::new(with_bucket(), 1, false);
    let mut b = tx.get_bucket(b"abc").unwrap();
    assert!(is_read_only(b.create_bucket(b"abc")));
}

#[test]
fn double_create_bucket() {
    let mut tx = Tx::new(with_bucket(), 2, true);
    let mut b = tx.get_bucket(b"abc").unwrap();
    assert!(b.create_bucket(b"abc").is_ok());
    assert!(matches!(b.create_bucket(b"abc"), Err(Error::BucketExists)));
}

#[test]
fn kv_bucket_mismatch() {
    let mut tx = Tx::new(with_bucket(), 2, true);
    let mut b = tx.get_bucket(b"abc").unwrap();
    b.put(b"abc", b"def".to_vec()).unwrap();
    assert!(is_incompatible(b.get_bucket(b"abc")));
    assert!(is_incompatible(b.create_bucket(b"abc")));
    assert!(is_incompatible(b.get_or_create_bucket(b"abc")));
    assert!(is_incompatible(b.delete_bucket(b"abc")));
}

#[test]
fn bucket_kv_mismatch() {
    let mut tx = Tx::new(with_bucket(), 2, true);
    let mut b = tx.get_bucket(b"abc").unwrap();
    b.create_bucket(b"abc").unwrap();
    assert!(is_incompatible(b.put(b"abc", b"def".to_vec())));
    assert!(is_incompatible(b.delete(b"abc")));
    assert!(b.get_kv(b"abc").is_none());
}

/// A committed database whose bucket `abc` holds the pairs a=1 to f=6.
fn six_pairs() -> Node {
    let mut tx = Tx::new(Node::new(), 1, true);
    {
        let mut b = tx.create_bucket(b"abc").unwrap();
        b.put(b"a", b"1".to_vec()).unwrap();
        b.put(b"b", b"2".to_vec()).unwrap();
        b.put(b"c", b"3".to_vec()).unwrap();
        b.put(b"d", b"4".to_vec()).unwrap();
        b.put(b"e", b"5".to_vec()).unwrap();
        b.put(b"f", b"6".to_vec()).unwrap();
    }
    tx.commit().unwrap().0
}

fn keys_in(b: &Bucket<'_>, start: Bound<'_>, end: Bound<'_>) -> Vec<String> {
    let mut range = b.range(start, end);
    let mut keys = Vec::new();
    while let Some(data) = range.next() {
        keys.push(String::from_utf8(data.key().to_vec()).unwrap());
    }
    assert!(range.next().is_none());
    keys
}

#[test]
fn test_range() {
    let mut tx = Tx::new(six_pairs(), 1, false);
    let bucket = tx.get_bucket(b"abc").unwrap();
    let a: &[u8] = b"a";
    let aa: &[u8] = b"aa";
    let b: &[u8] = b"b";
    let d: &[u8] = b"d";
    let e: &[u8] = b"e";
    let open = Bound::Unbounded;
    let check = |start: Bound<'_>, end: Bound<'_>, keys: &[&str]| {
        assert_eq!(keys_in(&bucket, start, end), keys);
    };
    check(Bound::Included(a), Bound::Excluded(e), &["a", "b", "c", "d"]);
    check(Bound::Included(aa), Bound::Excluded(e), &["b", "c", "d"]);
    check(Bound::Included(b), Bound::Excluded(e), &["b", "c", "d"]);
    check(Bound::Included(a), Bound::Included(d), &["a", "b", "c", "d"]);
    check(Bound::Included(b), Bound::Included(e), &["b", "c", "d", "e"]);
    check(Bound::Included(b), open, &["b", "c", "d", "e", "f"]);
    check(Bound::Included(a), open, &["a", "b", "c", "d", "e", "f"]);
    check(Bound::Included(d), Bound::Excluded(e), &["d"]);
    check(Bound::Included(d), Bound::Included(e), &["d", "e"]);
    check(open, Bound::Included(e), &["a", "b", "c", "d", "e"]);
    check(open, Bound::Excluded(e), &["a", "b", "c", "d"]);
    check(open, open, &["a", "b", "c", "d", "e", "f"]);
}

#[test]
fn ranges_begin_behind_an_excluded_key() {
    let mut tx = Tx::new(six_pairs(), 1, false);
    let bucket = tx.get_bucket(b"abc").unwrap();
    assert_eq!(keys_in(&bucket, Bound::Excluded(b"b"), Bound::Excluded(b"e")), ["c", "d"]);
    assert_eq!(keys_in(&bucket, Bound::Excluded(b"bb"), Bound::Included(b"d")), ["c", "d"]);
    assert_eq!(keys_in(&bucket, Bound::Excluded(b""), Bound::Included(b"b")), ["a", "b"]);
    assert!(keys_in(&bucket, Bound::Excluded(b"f"), Bound::Unbounded).is_empty());
    assert!(keys_in(&bucket, Bound::Excluded(b"g"), Bound::Unbounded).is_empty());
    assert!(keys_in(&bucket, Bound::Included(b"g"), Bound::Unbounded).is_empty());
}

/// A committed database whose bucket `abc` mixes pairs and sub-buckets.
fn mixed() -> Node {
    let mut tx = Tx::new(Node::new(), 1, true);
    {
        let mut b = tx.create_bucket(b"abc").unwrap();
        b.put(b"a", b"1".to_vec()).unwrap();
        b.create_bucket(b"b").unwrap();
        b.put(b"c", b"3".to_vec()).unwrap();
        b.create_bucket(b"d").unwrap();
        b.put(b"e", b"5".to_vec()).unwrap();
        b.create_bucket(b"f").unwrap();
    }
    tx.commit().unwrap().0
}

#[test]
fn test_iters() {
    let mut tx = Tx::new(mixed(), 1, false);
    {
        let b = tx.get_bucket(b"abc").unwrap();
        let mut buckets = b.buckets();
        assert_eq!(buckets.next().unwrap().name(), b"b");
        assert_eq!(buckets.next().unwrap().name(), b"d");
        assert_eq!(buckets.next().unwrap().name(), b"f");
        assert!(buckets.next().is_none());
    }
    {
        let b = tx.get_bucket(b"abc").unwrap();
        let mut kvpairs = b.kv_pairs();
        let (k, v) = kvpairs.next().unwrap().kv();
        assert_eq!(k, b"a");
        assert_eq!(v, b"1");
        let (k, v) = kvpairs.next().unwrap().kv();
        assert_eq!(k, b"c");
        assert_eq!(v, b"3");
        let (k, v) = kvpairs.next().unwrap().kv();
        assert_eq!(k, b"e");
        assert_eq!(v, b"5");
        assert!(kvpairs.next().is_none());
    }
}

#[test]
fn test_ro_txs() {
    let mut tx = Tx::new(Node::new(), 1, true);
    assert!(tx.create_bucket(b"abc").is_ok());
    let (root, _) = tx.commit().unwrap();

    let mut tx = Tx::new(root, 1, false);
    assert!(tx.create_bucket(b"def").is_err());
    {
        let mut b = tx.get_bucket(b"abc").unwrap();
        assert!(is_read_only(b.put(b"key", b"value".to_vec())));
        assert!(is_read_only(b.delete(b"key")));
        assert!(is_read_only(b.create_bucket(b"dev")));
    }
    assert!(is_read_only(tx.commit()));
}

#[test]
fn ranges_pass_over_the_other_kind() {
    let mut tx = Tx::new(mixed(), 1, false);
    let b = tx.get_bucket(b"abc").unwrap();
    let mut pairs = b.range(Bound::Included(b"b"), Bound::Included(b"e")).to_kv_pairs();
    assert_eq!(pairs.next().unwrap().key(), b"c");
    assert_eq!(pairs.next().unwrap().key(), b"e");
    assert!(pairs.next().is_none());
    let mut buckets = b.range(Bound::Included(b"b"), Bound::Excluded(b"f")).to_buckets();
    assert_eq!(buckets.next().unwrap().name(), b"b");
    assert_eq!(buckets.next().unwrap().name(), b"d");
    assert!(buckets.next().is_none());
}

#[test]
fn values_are_put_replaced_and_deleted() {
    let mut tx = Tx::new(Node::new(), 1, true);
    {
        let mut b = tx.create_bucket(b"names").unwrap();
        assert_eq!(b.next_int(), 0);
        assert_eq!(b.put(b"Kanan", b"Jarrus".to_vec()).unwrap(), None);
        assert_eq!(b.next_int(), 1);
        assert_eq!(b.put(b"Kanan", b"J".to_vec()).unwrap(), Some(b"Jarrus".to_vec()));
        assert_eq!(b.next_int(), 1);
        assert!(matches!(b.get(b"Kanan"), Some(Leaf::Kv(v)) if v == b"J"));
        assert_eq!(b.delete(b"Kanan").unwrap(), b"J".to_vec());
        assert!(matches!(b.delete(b"Kanan"), Err(Error::KeyValueMissing)));
        assert!(b.get(b"Kanan").is_none());
        assert_eq!(b.next_int(), 1);
    }
    assert!(matches!(tx.get_bucket(b"other"), Err(Error::BucketMissing)));
    assert!(matches!(tx.delete_bucket(b"other"), Err(Error::BucketMissing)));
    assert!(tx.delete_bucket(b"names").is_ok());
    assert!(matches!(tx.get_bucket(b"names"), Err(Error::BucketMissing)));
}

#[test]
fn committed_names_are_listed_in_order() {
    let mut tx = Tx::new(Node::new(), 4, true);
    tx.create_bucket(b"b").unwrap();
    tx.create_bucket(b"a").unwrap();
    tx.get_or_create_bucket(b"a").unwrap();
    assert_eq!(tx.buckets(), vec![b"a".to_vec(), b"b".to_vec()]);
    let (root, set) = tx.commit().unwrap();
    assert_eq!(set.transaction_id, 4);
    assert_eq!(set.changes.len(), 2);
    assert_eq!(root.len(), 2);
}

#[test]
fn cursors_move_both_ways() {
    let root = six_pairs();
    let node = root.child(b"abc").unwrap();
    let mut c = Cursor::new(node);
    assert!(c.current().is_none());
    assert!(c.seek(b"c"));
    assert_eq!(c.current().unwrap().key(), b"c");
    assert_eq!(c.next().unwrap().key(), b"c");
    assert_eq!(c.next().unwrap().key(), b"d");
    assert_eq!(c.previous().unwrap().key(), b"d");
    assert_eq!(c.previous().unwrap().key(), b"c");
    c.seek_last();
    assert_eq!(c.previous().unwrap().key(), b"f");
    assert_eq!(c.previous().unwrap().key(), b"e");
    assert!(!c.seek(b"bb"));
}

#[test]
fn maps_pick_ranges_and_prefixes() {
    let mut tx = Tx::new(six_pairs(), 2, true);
    let mut b = tx.get_bucket(b"abc").unwrap();
    assert!(b.contains_key(b"a"));
    assert!(!b.contains_key(b"z"));
    assert_eq!(b.len(), 6);
    assert_eq!(b.first().unwrap().key(), b"a");
    assert_eq!(b.last().unwrap().value(), b"6");
    assert_eq!(b.delete_range(b"b", b"d").unwrap(), 2);
    assert_eq!(
        b.multi_get(&vec![b"a".to_vec(), b"b".to_vec(), b"d".to_vec()]),
        vec![Some(b"1".to_vec()), None, Some(b"4".to_vec())]
    );
    assert_eq!(b.insert(b"dd", b"7".to_vec()).unwrap(), None);
    assert_eq!(b.delete_prefix(b"d").unwrap(), 2);
    assert_eq!(b.remove(b"zz").unwrap(), None);
    assert_eq!(b.remove(b"a").unwrap(), Some(b"1".to_vec()));
    assert_eq!(
        b.insert_many(&vec![(b"x".to_vec(), b"8".to_vec()), (b"e".to_vec(), b"9".to_vec())]).unwrap(),
        2
    );
    assert_eq!(b.remove_many(&vec![b"x".to_vec(), b"y".to_vec()]).unwrap(), 1);
    assert_eq!(b.get_kv(b"e").unwrap(), b"9");
    assert_eq!(b.clear().unwrap(), 2);
    assert!(b.is_empty());
}

#[test]
fn atomic_operations_report_what_they_saw() {
    let mut tx = Tx::new(Node::new(), 1, true);
    let mut b = tx.create_bucket(b"abc").unwrap();
    let r = b.put_if_absent(b"k", b"1".to_vec()).unwrap();
    assert!(r.applied);
    assert_eq!((r.observed, r.current), (None, Some(b"1".to_vec())));
    let r = b.put_if_absent(b"k", b"2".to_vec()).unwrap();
    assert!(!r.applied);
    assert_eq!((r.observed, r.current), (Some(b"1".to_vec()), Some(b"1".to_vec())));
    let r = b.compare_exchange(b"k", Some(b"1"), b"3".to_vec()).unwrap();
    assert!(r.applied);
    assert_eq!((r.observed, r.current), (Some(b"1".to_vec()), Some(b"3".to_vec())));
    let r = b.compare_exchange(b"k", None, b"4".to_vec()).unwrap();
    assert!(!r.applied);
    let r = b.compare_exchange(b"new", None, b"4".to_vec()).unwrap();
    assert!(r.applied);
    let r = b.delete_if_value(b"missing", b"4").unwrap();
    assert!(!r.applied);
    let r = b.delete_if_value(b"new", b"4").unwrap();
    assert!(r.applied);
    assert_eq!((r.observed, r.current), (Some(b"4".to_vec()), None));
    assert!(b.get_kv(b"new").is_none());
}
