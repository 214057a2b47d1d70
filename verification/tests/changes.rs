use inspace::api::changes::{
    Change, ChangeOperation, ChangeSet, ChangeTracker, RecvError, TryRecvError, WatchError, WatchFilter,
    WatchSubscription, MAX_CHANGES,
};
use inspace::api::journal::{
    checkpoint, checkpoint_key, decode_change_set, decode_operation, decode_tx_key, enable, encode_change_set,
    encode_operation, persist, read_checkpoint, replay, tx_key, JournalConfig, JournalGap,
    JournalReplay,
};
use inspace::api::merge::{MergeConflictPolicy, MergeOptions, MergeReport};
use inspace::api::scoped::{conclude, end_scope, ScopeEnd, TransactionError};
use inspace::api::tree::{Leaf, Node};
use inspace::api::tx::Tx;
use inspace::error::Error;

fn change(path: &[&[u8]], key: &[u8], operation: ChangeOperation) -> Change {
    Change {
        bucket_path: path.iter().map(|name| name.to_vec()).collect(),
        key: key.to_vec(),
        operation,
    }
}

fn set(id: u64, changes: Vec<Change>) -> ChangeSet {
    ChangeSet { transaction_id: id, changes, truncated: false }
}

#[test]
fn transactions_tell_their_changes() {
    let mut tx = Tx::new(Node::new(), 3, true);
    {
        let mut b = tx.create_bucket(b"b").unwrap();
        b.put(b"k", b"v".to_vec()).unwrap();
        b.delete(b"k").unwrap();
        b.create_bucket(b"c").unwrap();
        b.delete_bucket(b"c").unwrap();
    }
    let (_, told) = tx.commit().unwrap();
    assert_eq!(
        told,
        set(
            3,
            vec![
                change(&[], b"b", ChangeOperation::BucketCreate),
                change(&[b"b"], b"k", ChangeOperation::Put),
                change(&[b"b"], b"k", ChangeOperation::Delete),
                change(&[b"b"], b"c", ChangeOperation::BucketCreate),
                change(&[b"b"], b"c", ChangeOperation::BucketDelete),
            ]
        )
    );
}

#[test]
fn large_transactions_are_truncated() {
    let mut tracker = ChangeTracker::new(true);
    let path = vec![b"b".to_vec()];
    for i in 0..MAX_CHANGES as u64 + 1 {
        tracker.record(&path, &i.to_be_bytes(), ChangeOperation::Put);
    }
    let told = tracker.finish(1);
    assert_eq!(told.changes.len(), MAX_CHANGES);
    assert!(told.truncated);
    let mut quiet = ChangeTracker::new(false);
    quiet.record(&path, b"k", ChangeOperation::Put);
    assert!(quiet.snapshot(1).changes.is_empty());
}

#[test]
fn filters_choose_changes() {
    let put = change(&[b"users"], b"ann", ChangeOperation::Put);
    let delete = change(&[b"users"], b"bob", ChangeOperation::Delete);
    let other = change(&[b"jobs"], b"ann", ChangeOperation::Put);
    assert!(WatchFilter::new().matches(&put));
    let filter = WatchFilter::from_now().collection(b"users");
    assert!(filter.matches(&put) && filter.matches(&delete) && !filter.matches(&other));
    let filter = WatchFilter::new().prefix(b"a");
    assert!(filter.matches(&put) && !filter.matches(&delete) && filter.matches(&other));
    let filter = WatchFilter::new().range(b"ann", b"bob");
    assert!(filter.matches(&put) && !filter.matches(&delete));
    let filter = WatchFilter::new().operations(vec![ChangeOperation::Delete]);
    assert!(!filter.matches(&put) && filter.matches(&delete));
    let filter = WatchFilter::new().bucket_path(vec![b"users".to_vec(), b"deep".to_vec()]);
    assert!(!filter.matches(&put));
}

#[test]
fn a_full_subscription_is_disconnected() {
    let mut watch = WatchSubscription::new(1, WatchFilter::new());
    let first = set(1, vec![change(&[], b"b", ChangeOperation::BucketCreate)]);
    assert_eq!(watch.try_recv(), Err(TryRecvError::Empty));
    assert_eq!(watch.try_recv_event(), Err(WatchError::Empty));
    assert!(watch.offer(&first));
    assert!(!watch.offer(&set(2, vec![change(&[], b"c", ChangeOperation::Put)])));
    assert_eq!(watch.try_recv_event(), Ok(first));
    assert_eq!(watch.try_recv_event(), Err(WatchError::Overflow));
    assert_eq!(watch.recv(), Err(RecvError));
}

#[test]
fn subscriptions_keep_order_until_they_end() {
    let mut watch = WatchSubscription::new(4, WatchFilter::new().prefix(b"k"));
    let both = set(
        7,
        vec![change(&[], b"b", ChangeOperation::Put), change(&[], b"k1", ChangeOperation::Put)],
    );
    assert!(watch.offer(&both));
    assert!(watch.offer(&set(8, vec![change(&[], b"k2", ChangeOperation::Delete)])));
    assert_eq!(watch.recv().unwrap(), set(7, vec![change(&[], b"k1", ChangeOperation::Put)]));
    watch.disconnect();
    assert_eq!(watch.recv_event().unwrap().transaction_id, 8);
    assert_eq!(watch.recv_event(), Err(WatchError::Disconnected));
    assert_eq!(watch.try_recv(), Err(TryRecvError::Disconnected));
    let mut left = WatchSubscription::new(1, WatchFilter::new());
    left.hang_up();
    assert!(!left.offer(&both));
}

#[test]
fn change_sets_round_trip_through_the_journal() {
    let told = set(
        5,
        vec![
            change(&[b"a", b"b"], b"k", ChangeOperation::Put),
            change(&[], b"c", ChangeOperation::BucketDelete),
        ],
    );
    let bytes = encode_change_set(&told).unwrap();
    assert_eq!(decode_change_set(5, &bytes).unwrap(), told);
    assert!(decode_change_set(5, &bytes[..bytes.len() - 1]).is_err());
    assert_eq!(decode_tx_key(&tx_key(77)), Some(77));
    assert_eq!(decode_tx_key(b"config"), None);
    for operation in [
        ChangeOperation::Put,
        ChangeOperation::Delete,
        ChangeOperation::BucketCreate,
        ChangeOperation::BucketDelete,
        ChangeOperation::Expire,
    ] {
        assert_eq!(decode_operation(encode_operation(operation)).unwrap(), operation);
    }
    assert!(decode_operation(200).is_err());
    assert!(checkpoint_key(b"").is_err());
    assert_eq!(checkpoint_key(b"me").unwrap(), b"cme");
}

#[test]
fn journals_replay_what_they_kept() {
    let mut root = Node::new();
    let told = |id: u64| set(id, vec![change(&[b"b"], &[id as u8], ChangeOperation::Put)]);
    persist(&mut root, &told(1)).unwrap();
    assert_eq!(root.len(), 0);
    enable(&mut root, JournalConfig { max_transactions: 2 }).unwrap();
    for id in 2..6 {
        persist(&mut root, &told(id)).unwrap();
    }
    let all = replay(&root, 3, 10, None).unwrap();
    assert_eq!(all.transactions, vec![told(4), told(5)]);
    assert_eq!(all.gap, None);
    assert_eq!((all.oldest_available, all.newest_available), (Some(4), Some(5)));
    let late = replay(&root, 1, 1, None).unwrap();
    assert_eq!(late.gap, Some(JournalGap { requested_after: 1, oldest_available: 4 }));
    assert_eq!(late.transactions.len(), 1);
    let none = replay(&root, 3, 10, Some(&WatchFilter::new().prefix(b"zz"))).unwrap();
    assert_eq!(none.transactions, vec![set(4, vec![]), set(5, vec![])]);
    assert_eq!(read_checkpoint(&root, b"me").unwrap(), None);
    checkpoint(&mut root, b"me", 5).unwrap();
    assert_eq!(read_checkpoint(&root, b"me").unwrap(), Some(5));
    assert!(enable(&mut Node::new(), JournalConfig { max_transactions: 0 }).is_err());
}

#[test]
fn values_expire() {
    let mut tx = Tx::new(Node::new(), 1, true);
    {
        let mut b = tx.create_bucket(b"b").unwrap();
        let written = b.put_with_ttl(b"k", b"v".to_vec(), 100).unwrap();
        assert_eq!((written.previous, written.expires_at_millis), (None, 100));
        assert_eq!(b.get_live_at(b"k", 99).unwrap().unwrap(), b"v");
        assert!(b.get_live_at(b"k", 100).unwrap().is_none());
        assert_eq!(b.get_kv(b"k").unwrap(), b"v");
        b.put_with_ttl(b"l", b"w".to_vec(), 200).unwrap();
        b.put_with_ttl(b"m", b"x".to_vec(), 50).unwrap();
        assert!(b.clear_ttl(b"m").unwrap());
        assert!(!b.clear_ttl(b"m").unwrap());
        assert_eq!(b.purge_expired(150, 10).unwrap(), 1);
        assert!(b.get_kv(b"k").is_none());
        assert_eq!(b.get_kv(b"m").unwrap(), b"x");
        assert_eq!(b.put_lasting(b"l", b"y".to_vec()).unwrap(), Some(b"w".to_vec()));
        assert_eq!(b.get_live_at(b"l", 500).unwrap().unwrap(), b"y");
    }
    let (_, told) = tx.commit().unwrap();
    assert!(told.changes.contains(&change(&[b"b"], b"k", ChangeOperation::Expire)));
}

#[test]
fn sweeps_are_bounded_and_reach_nested_buckets() {
    let mut tx = Tx::new(Node::new(), 1, true);
    {
        let mut b = tx.create_bucket(b"b").unwrap();
        b.put_with_ttl(b"k", b"v".to_vec(), 10).unwrap();
        let mut c = b.create_bucket(b"c").unwrap();
        c.put_with_ttl(b"1", b"v".to_vec(), 10).unwrap();
        c.put_with_ttl(b"2", b"v".to_vec(), 20).unwrap();
    }
    assert_eq!(tx.purge_expired(10, 1).unwrap(), 1);
    assert_eq!(tx.purge_expired(10, 10).unwrap(), 1);
    assert_eq!(tx.purge_expired(15, 10).unwrap(), 0);
    assert_eq!(tx.purge_expired(20, 10).unwrap(), 1);
}

#[test]
fn checkpoints_leave_the_journal_alone() {
    let mut root = Node::new();
    enable(&mut root, JournalConfig { max_transactions: 2 }).unwrap();
    for (i, consumer) in [&b"onfig"[..], b"config", b"c", b"me"].iter().enumerate() {
        checkpoint(&mut root, consumer, 100 + i as u64).unwrap();
    }
    for (i, consumer) in [&b"onfig"[..], b"config", b"c", b"me"].iter().enumerate() {
        assert_eq!(read_checkpoint(&root, consumer).unwrap(), Some(100 + i as u64));
    }
    for id in 1..6 {
        persist(&mut root, &set(id, vec![change(&[], b"b", ChangeOperation::BucketCreate)])).unwrap();
    }
    let told = replay(&root, 3, 10, None).unwrap();
    assert_eq!(told.transactions.len(), 2);
    assert_eq!(told.oldest_available, Some(4));
    assert_eq!(checkpoint_key(b"onfig").unwrap(), b"c");
}

#[test]
fn journal_records_are_read_whole() {
    let told = set(9, vec![change(&[b"b", b"c"], b"key", ChangeOperation::Put)]);
    let record = encode_change_set(&told).unwrap();
    assert_eq!(decode_change_set(9, &record).unwrap(), told);
    for n in 0..record.len() {
        assert!(decode_change_set(9, &record[..n]).is_err());
    }
    let mut longer = record.clone();
    longer.push(0);
    assert!(decode_change_set(9, &longer).is_err());
}

#[test]
fn defaults_are_what_new_makes() {
    assert_eq!(MergeOptions::default(), MergeOptions::new());
    assert_eq!(MergeOptions::default().policy(), MergeConflictPolicy::default());
    assert_eq!(MergeConflictPolicy::default(), MergeConflictPolicy::Overwrite);
    assert_eq!(MergeReport::default().keys_inserted, 0);
    assert_eq!(JournalConfig::default().max_transactions, 10_000);
    assert!(JournalReplay::default().transactions.is_empty());
    assert!(WatchFilter::default().matches(&change(&[], b"k", ChangeOperation::Put)));
}

#[test]
fn updates_read_and_replace() {
    let mut tx = Tx::new(Node::new(), 1, true);
    let mut b = tx.create_bucket(b"b").unwrap();
    assert_eq!(b.update_value(b"k", |old| old.map(|v| v.to_vec())).unwrap(), None);
    b.replace_value(b"k", Some(b"1".to_vec())).unwrap();
    let before = b.update_value(b"k", |old| old.map(|v| [v, &b"2"[..]].concat())).unwrap();
    assert_eq!(before, Some(b"1".to_vec()));
    assert_eq!(b.get_kv(b"k").unwrap(), b"12");
    b.replace_value(b"k", None).unwrap();
    assert!(b.get_kv(b"k").is_none());
}

fn source() -> Node {
    let mut tx = Tx::new(Node::new(), 1, true);
    {
        let mut b = tx.create_bucket(b"b").unwrap();
        b.put(b"same", b"1".to_vec()).unwrap();
        b.put(b"other", b"2".to_vec()).unwrap();
        b.put(b"new", b"3".to_vec()).unwrap();
        b.create_bucket(b"kind").unwrap();
    }
    tx.create_bucket(b"extra").unwrap();
    tx.commit().unwrap().0
}

fn target() -> Node {
    let mut tx = Tx::new(Node::new(), 1, true);
    {
        let mut b = tx.create_bucket(b"b").unwrap();
        b.put(b"same", b"1".to_vec()).unwrap();
        b.put(b"other", b"9".to_vec()).unwrap();
        b.put(b"kind", b"8".to_vec()).unwrap();
    }
    tx.commit().unwrap().0
}

#[test]
fn merges_follow_their_policy() {
    let options = |policy| MergeOptions::new().conflict_policy(policy);
    let mut tx = Tx::new(target(), 2, true);
    let report = tx.merge_from(&source(), options(MergeConflictPolicy::Overwrite)).unwrap();
    assert_eq!((report.keys_inserted, report.keys_updated, report.keys_unchanged), (1, 1, 1));
    assert_eq!((report.buckets_created, report.buckets_merged), (2, 1));
    assert_eq!(report.type_conflicts_resolved, 1);
    {
        let b = tx.get_bucket(b"b").unwrap();
        assert_eq!(b.get_kv(b"other").unwrap(), b"2");
        assert!(matches!(b.get(b"kind"), Some(Leaf::Bucket(_))));
    }
    let mut tx = Tx::new(target(), 2, true);
    let report = tx.merge_from(&source(), options(MergeConflictPolicy::KeepExisting)).unwrap();
    assert_eq!(report.entries_skipped, 2);
    assert_eq!(tx.get_bucket(b"b").unwrap().get_kv(b"other").unwrap(), b"9");
    let mut tx = Tx::new(target(), 2, true);
    match tx.merge_from(&source(), options(MergeConflictPolicy::Error)) {
        Err(Error::MergeConflict { path }) => assert_eq!(path, vec![b"b".to_vec(), b"kind".to_vec()]),
        _ => panic!("the kinds differ"),
    }
    let mut tx = Tx::new(source(), 2, true);
    let report = tx.merge_from(&source(), MergeOptions::new()).unwrap();
    assert_eq!((report.keys_unchanged, report.keys_inserted, report.keys_updated), (3, 0, 0));
    let mut tx = Tx::new(target(), 2, false);
    assert!(matches!(tx.merge_from(&source(), MergeOptions::new()), Err(Error::ReadOnlyTx)));
}

#[test]
fn deadlines_follow_the_winning_key() {
    let side = |kind: bool| {
        let mut tx = Tx::new(Node::new(), 1, true);
        {
            let mut b = tx.create_bucket(b"b").unwrap();
            if kind {
                b.create_bucket(b"kind").unwrap();
                b.put(b"lasting", b"new".to_vec()).unwrap();
            } else {
                b.put_with_ttl(b"kind", b"v".to_vec(), 10).unwrap();
                b.put_with_ttl(b"lasting", b"old".to_vec(), 10).unwrap();
            }
        }
        tx.commit().unwrap().0
    };
    let mut tx = Tx::new(side(false), 2, true);
    tx.merge_from(&side(true), MergeOptions::new()).unwrap();
    assert_eq!(tx.purge_expired(100, 10).unwrap(), 0);
    let b = tx.get_bucket(b"b").unwrap();
    assert!(matches!(b.get(b"kind"), Some(Leaf::Bucket(_))));
    assert_eq!(b.get_live_at(b"lasting", 100).unwrap().unwrap(), b"new");
    let mut tx = Tx::new(side(false), 2, true);
    tx.merge_from(&side(true), MergeOptions::new().conflict_policy(MergeConflictPolicy::KeepExisting)).unwrap();
    assert_eq!(tx.purge_expired(100, 10).unwrap(), 2);
}

#[test]
fn scopes_commit_or_roll_back() {
    match end_scope::<u8, &str>(Ok(4)) {
        ScopeEnd::Commit(value) => assert_eq!(value, 4),
        ScopeEnd::Rollback(_) => panic!("the scope succeeded"),
    }
    let failed: Result<u8, TransactionError<&str>> = Err(TransactionError::application("no"));
    match end_scope(failed) {
        ScopeEnd::Commit(_) => panic!("the scope failed"),
        ScopeEnd::Rollback(error) => {
            assert_eq!(error.application_ref(), Some(&"no"));
            assert!(error.storage().is_none());
            assert_eq!(error.message("no"), "transaction application error: no");
        }
    }
    assert_eq!(conclude::<u8, &str>(4, Ok(())).unwrap(), 4);
    match conclude::<u8, &str>(4, Err(Error::ReadOnlyTx)) {
        Ok(_) => panic!("the commit failed"),
        Err(error) => assert_eq!(error.message(""), "transaction storage error: transaction is read-only"),
    }
    let converted: TransactionError<u8> = TransactionError::from(Error::BucketExists);
    assert!(matches!(converted.storage(), Some(Error::BucketExists)));
}
