use inspace::cursor::{ToBuckets, ToKVPairs};
use inspace::data::{BucketName, Data, KVPair};
use inspace::db::commit::{check, initialize, prepare, Commit};
use inspace::db::load::{load_state, select_meta};
use inspace::db::path::{child_path, direct_child_name, parent_path, path_name, root_path};
use inspace::db::read::{in_bounds, Bound, ReadTransaction};
use inspace::db::state::OwnedState;
use inspace::db::write::WriteTransaction;
use inspace::error::{Error, Fault};
use inspace::format::{
    encode_transaction, file_header, parse_transaction, validate_file_header, CREATE_BUCKET, PUT,
};
use inspace::hash::{hash, pair_hash};
use inspace::page::{Meta, Node, Record};
use inspace::tree::build_tree;

fn write_at(image: &mut Vec<u8>, offset: u64, bytes: &[u8]) {
    let at = offset as usize;
    image[at..at + bytes.len()].copy_from_slice(bytes);
}

fn new_file() -> Vec<u8> {
    let first = initialize().unwrap();
    let mut image = vec![0; first.length as usize];
    for (offset, bytes) in &first.writes {
        write_at(&mut image, *offset, bytes);
    }
    write_at(&mut image, 0, &first.meta_page);
    write_at(&mut image, 4096, &first.meta_page);
    image
}

fn write_data(image: &mut Vec<u8>, commit: &Commit) {
    image.resize(commit.length as usize, 0);
    for (offset, bytes) in &commit.writes {
        write_at(image, *offset, bytes);
    }
}

fn publish(image: &mut Vec<u8>, commit: &Commit) {
    write_data(image, commit);
    write_at(image, commit.meta_offset, &commit.meta_page);
}

/// A file with buckets `people` and `people/nested`.
fn people() -> Vec<u8> {
    let mut image = new_file();
    let state = load_state(&image).unwrap();
    let commit = {
        let mut tx = WriteTransaction::new(ReadTransaction { image: &image, state: &state });
        {
            let mut bucket = tx.create_bucket(b"people").unwrap();
            bucket.put(b"kanan", b"jarrus").unwrap();
            bucket.put(b"ezra", b"bridger").unwrap();
            bucket.create_bucket(b"nested").unwrap().put(b"k", b"v").unwrap();
            assert_eq!(bucket.next_int(), 3);
        }
        prepare(&tx).unwrap().unwrap()
    };
    publish(&mut image, &commit);
    image
}

#[test]
fn a_new_database_is_empty() {
    let image = new_file();
    let meta = select_meta(&image).unwrap();
    assert_eq!(meta.txid, 0);
    assert_eq!(meta.page_size, 4096);
    let state = load_state(&image).unwrap();
    let tx = ReadTransaction { image: &image, state: &state };
    assert_eq!(tx.buckets().len(), 0);
    assert!(matches!(tx.bucket(b"people"), Err(Error::BucketNotFound)));
    assert!(check(&state, &image).is_ok());
}

#[test]
fn committed_data_is_read_back() {
    let image = people();
    let state = load_state(&image).unwrap();
    let tx = ReadTransaction { image: &image, state: &state };
    let bucket = tx.bucket(b"people").unwrap();
    assert_eq!(bucket.get_kv(b"kanan").unwrap().value(), b"jarrus");
    assert!(bucket.contains_key(b"ezra"));
    assert!(bucket.get_kv(b"nested").is_none());
    assert!(matches!(bucket.get(b"nested"), Some(Data::Bucket(_))));
    assert_eq!(bucket.next_int(), 3);
    let nested = bucket.get_bucket(b"nested").unwrap();
    assert_eq!(nested.get_kv(b"k").unwrap().kv(), (&b"k"[..], &b"v"[..]));
    assert!(matches!(bucket.get_bucket(b"other"), Err(Error::BucketNotFound)));
    assert_eq!(bucket.buckets().len(), 1);
    assert_eq!(tx.buckets().len(), 1);
    let keys: Vec<&[u8]> = bucket.kv_pairs().iter().map(|pair| pair.key()).collect();
    assert_eq!(keys, vec![&b"ezra"[..], &b"kanan"[..]]);
    assert!(check(&state, &image).is_ok());
}

#[test]
fn ranges_and_cursors_keep_order() {
    let image = people();
    let state = load_state(&image).unwrap();
    let tx = ReadTransaction { image: &image, state: &state };
    let bucket = tx.bucket(b"people").unwrap();
    let mut range = bucket.range(Bound::Excluded(b"ezra"), Bound::Unbounded);
    assert_eq!(range.remaining(), 2);
    assert_eq!(range.next().unwrap().key(), b"kanan");
    assert_eq!(range.next().unwrap().key(), b"nested");
    assert!(range.next().is_none());
    let mut cursor = bucket.cursor();
    assert!(!cursor.seek(b"f"));
    assert_eq!(cursor.current().unwrap().key(), b"kanan");
    assert!(cursor.seek(b"kanan"));
    assert_eq!(bucket.cursor().to_kv_pairs().next().unwrap().key(), b"ezra");
    assert_eq!(bucket.cursor().to_buckets().next().unwrap().name(), b"nested");
    assert!(in_bounds(Bound::Included(b"a"), Bound::Excluded(b"b"), b"a"));
    assert!(!in_bounds(Bound::Excluded(b"a"), Bound::Unbounded, b"a"));
}

#[test]
fn an_interrupted_commit_changes_nothing() {
    let mut image = people();
    let state = load_state(&image).unwrap();
    let commit = {
        let mut tx = WriteTransaction::new(ReadTransaction { image: &image, state: &state });
        tx.delete_bucket(b"people").unwrap();
        prepare(&tx).unwrap().unwrap()
    };
    write_data(&mut image, &commit);
    let half = load_state(&image).unwrap();
    let tx = ReadTransaction { image: &image, state: &half };
    assert!(tx.bucket(b"people").is_ok());
    assert_eq!(half.meta.txid, 1);
    let mut image = image.clone();
    publish(&mut image, &commit);
    let whole = load_state(&image).unwrap();
    assert_eq!(whole.meta.txid, 2);
    let tx = ReadTransaction { image: &image, state: &whole };
    assert!(matches!(tx.bucket(b"people"), Err(Error::BucketNotFound)));
}

#[test]
fn commits_are_all_or_nothing() {
    let mut image = new_file();
    let state = load_state(&image).unwrap();
    assert_eq!(state.meta.txid, 0);
    let commit = {
        let mut tx = WriteTransaction::new(ReadTransaction { image: &image, state: &state });
        tx.create_bucket(b"people").unwrap().put(b"kanan", b"jarrus").unwrap();
        prepare(&tx).unwrap().unwrap()
    };
    assert_eq!(commit.meta_offset, 4096);
    let grown = {
        let mut grown = image.clone();
        grown.resize(commit.length as usize, 0);
        grown
    };
    assert_eq!(load_state(&grown).unwrap().meta.txid, 0);
    write_data(&mut image, &commit);
    for written in 0..=commit.meta_page.len() {
        let mut torn = image.clone();
        write_at(&mut torn, commit.meta_offset, &commit.meta_page[..written]);
        let found = load_state(&torn).unwrap();
        let tx = ReadTransaction { image: &torn, state: &found };
        let whole = torn[4096..8192] == commit.meta_page[..];
        assert_eq!(found.meta.txid, if whole { 1 } else { 0 });
        assert_eq!(tx.bucket(b"people").is_ok(), whole);
    }
}

#[test]
fn a_placeholder_stands_alone() {
    let file = |records: &[Record]| {
        let tree = build_tree(records, 4096, 2).unwrap();
        let mut image = vec![0; tree.high_water as usize * 4096];
        for (id, bytes) in &tree.pages {
            write_at(&mut image, id * 4096, bytes);
        }
        let meta = Meta { page_size: 4096, txid: 0, root: tree.root, high_water: tree.high_water, freelist: 0 };
        write_at(&mut image, 0, &meta.encode().unwrap());
        image
    };
    let nothing = || Record { key: vec![], value: vec![] };
    let bucket = Record { key: [&[0], root_path(b"b").unwrap().as_slice()].concat(), value: vec![0; 8] };
    assert_eq!(load_state(&file(&[nothing()])).unwrap().buckets.len(), 0);
    assert!(matches!(
        load_state(&file(&[nothing(), bucket])),
        Err(Error::Corrupt("invalid tree record"))
    ));
}

#[test]
fn staged_changes_are_foreseen() {
    let image = people();
    let state = load_state(&image).unwrap();
    let mut tx = WriteTransaction::new(ReadTransaction { image: &image, state: &state });
    assert!(prepare(&tx).unwrap().is_none());
    assert!(matches!(tx.create_bucket(b"people"), Err(Error::BucketExists)));
    assert!(matches!(tx.bucket(b"other"), Err(Error::BucketNotFound)));
    {
        let mut bucket = tx.bucket(b"people").unwrap();
        bucket.put(b"sabine", b"wren").unwrap();
        bucket.delete(b"ezra").unwrap();
        assert!(bucket.get_bucket(b"nested").is_ok());
        bucket.delete_bucket(b"nested").unwrap();
        assert!(bucket.get_bucket(b"nested").is_err());
        assert!(bucket.get_or_create_bucket(b"nested").is_ok());
    }
    let path = root_path(b"people").unwrap();
    assert!(tx.key_will_exist(&path, b"sabine"));
    assert!(!tx.key_will_exist(&path, b"ezra"));
    assert!(tx.bucket_will_exist(&path));
    assert_eq!(tx.staged_next_int(&path), 5);
    assert!(tx.get_or_create_bucket(b"more").is_ok());
    assert!(tx.put(b"people", b"a", b"b").is_ok());
    assert!(tx.delete(b"people", b"a").is_ok());
}

#[test]
fn a_bucket_made_again_begins_anew() {
    let image = people();
    let state = load_state(&image).unwrap();
    let commit = {
        let mut tx = WriteTransaction::new(ReadTransaction { image: &image, state: &state });
        tx.delete_bucket(b"people").unwrap();
        let path = root_path(b"people").unwrap();
        assert_eq!(tx.staged_next_int(&path), 0);
        let nested = child_path(&path, b"nested").unwrap();
        {
            let mut bucket = tx.create_bucket(b"people").unwrap();
            bucket.put(b"kanan", b"jarrus").unwrap();
            assert_eq!(bucket.next_int(), 1);
            assert!(matches!(bucket.get_bucket(b"nested"), Err(Error::BucketNotFound)));
            bucket.create_bucket(b"nested").unwrap().put(b"k", b"w").unwrap();
            assert_eq!(bucket.next_int(), 2);
            bucket.delete(b"kanan").unwrap();
            bucket.put(b"kanan", b"again").unwrap();
            assert_eq!(bucket.next_int(), 3);
        }
        assert!(tx.bucket_will_exist(&nested));
        assert_eq!(tx.staged_next_int(&nested), 1);
        assert!(!tx.key_will_exist(&path, b"ezra"));
        prepare(&tx).unwrap().unwrap()
    };
    let mut image = image.clone();
    publish(&mut image, &commit);
    let state = load_state(&image).unwrap();
    let tx = ReadTransaction { image: &image, state: &state };
    let bucket = tx.bucket(b"people").unwrap();
    assert_eq!(bucket.next_int(), 3);
    assert!(!bucket.contains_key(b"ezra"));
    assert_eq!(bucket.get_bucket(b"nested").unwrap().get_kv(b"k").unwrap().value(), b"w");
}

#[test]
fn what_was_staged_below_goes_with_its_parent() {
    let image = new_file();
    let state = load_state(&image).unwrap();
    let mut tx = WriteTransaction::new(ReadTransaction { image: &image, state: &state });
    tx.create_bucket(b"a").unwrap().create_bucket(b"b").unwrap().put(b"k", b"v").unwrap();
    let inner = child_path(&root_path(b"a").unwrap(), b"b").unwrap();
    assert!(tx.bucket_will_exist(&inner));
    tx.delete_bucket(b"a").unwrap();
    assert!(!tx.bucket_will_exist(&inner));
    assert!(!tx.key_will_exist(&inner, b"k"));
    let mut a = tx.create_bucket(b"a").unwrap();
    assert!(a.get_bucket(b"b").is_err());
    a.put(b"b", b"value").unwrap();
    assert!(prepare(&tx).unwrap().is_some());
}

#[test]
fn paths_are_made_of_names() {
    let root = root_path(b"a").unwrap();
    let child = child_path(&root, b"bc").unwrap();
    assert_eq!(path_name(&child), Some(&b"bc"[..]));
    assert_eq!(parent_path(&child), Some(&root[..]));
    assert_eq!(direct_child_name(&child, &root), Some(&b"bc"[..]));
    assert_eq!(direct_child_name(&root, &child), None);
}

#[test]
fn transactions_are_encoded_and_parsed() {
    let header = file_header();
    assert_eq!(header.len(), 64);
    assert!(validate_file_header(&header).is_ok());
    assert!(validate_file_header(&header[..63]).is_err());
    let mut other = header.clone();
    other[0] ^= 1;
    assert!(matches!(validate_file_header(&other), Err(Error::Corrupt(_))));
    let operations = vec![
        (CREATE_BUCKET, b"b".to_vec(), vec![], vec![]),
        (PUT, b"b".to_vec(), b"key".to_vec(), b"value".to_vec()),
    ];
    let encoded = encode_transaction(9, &operations).unwrap();
    let parsed = parse_transaction(&encoded, 0).unwrap().unwrap();
    assert_eq!(parsed.txid, 9);
    assert_eq!(parsed.end, encoded.len());
    let record = &parsed.records[1];
    assert_eq!(&encoded[record.key_offset..record.key_offset + record.key_len], b"key");
    assert_eq!(&encoded[record.value_offset..record.value_offset + record.value_len], b"value");
    assert!(parse_transaction(&encoded[..encoded.len() - 1], 0).unwrap().is_none());
    let mut torn = encoded.clone();
    torn[45] ^= 1;
    assert!(parse_transaction(&torn, 0).is_err());
    assert!(parse_transaction(&encoded, encoded.len()).unwrap().is_none());
}

#[test]
fn operations_apply_in_order() {
    let path = root_path(b"b").unwrap();
    let mut state = OwnedState::new();
    state
        .apply(&[
            (CREATE_BUCKET, path.clone(), vec![], vec![]),
            (PUT, path.clone(), b"k".to_vec(), b"v".to_vec()),
        ])
        .unwrap();
    let records = state.records().unwrap();
    assert_eq!(records.len(), 2);
    assert!(state.apply(&[(PUT, b"nowhere".to_vec(), vec![], vec![])]).is_err());
    assert!(state.apply(&[(99, path, vec![], vec![])]).is_err());
}

#[test]
fn hashes_are_fnv() {
    assert_eq!(hash(b""), 0xcbf2_9ce4_8422_2325);
    assert_eq!(hash(b"a"), 0xaf63_dc4c_8601_ec8c);
    assert_eq!(hash(b"foobar"), 0x8594_4171_f739_67e8);
    assert_ne!(pair_hash(b"a", b"bc"), pair_hash(b"ab", b"c"));
}

#[test]
fn damaged_files_are_refused() {
    assert!(matches!(select_meta(&[0; 8192]), Err(Error::Corrupt(_))));
    assert!(matches!(load_state(&[]), Err(Error::Corrupt(_))));
    let mut image = people();
    let root = select_meta(&image).unwrap().root as usize * 4096;
    image[root + 50] ^= 1;
    assert!(matches!(load_state(&image), Err(Error::Corrupt(_))));
}

#[test]
fn trees_without_room_are_refused() {
    let key = vec![7; 4000];
    let records = vec![
        Record { key: key.clone(), value: vec![] },
        Record { key: [key.as_slice(), &[1]].concat(), value: vec![] },
    ];
    assert!(matches!(build_tree(&records, 1024, 2), Err(Error::TooLarge)));
    let one = build_tree(&records[..1], 1024, 2).unwrap();
    assert_eq!(one.root, 2);
    let node = Node::decode(&one.pages[0].1, 1024).unwrap();
    assert_eq!(node.span(), 4);
    assert!(Node::decode(&[0; 10], 1024).is_err());
}

#[test]
fn data_tells_keys_and_values() {
    let pair = Data::KeyValue(KVPair::new(b"k", b"v"));
    assert!(pair.is_kv());
    assert_eq!(pair.kv().kv(), (&b"k"[..], &b"v"[..]));
    let bucket = Data::Bucket(BucketName::new(b"b"));
    assert!(!bucket.is_kv());
    assert_eq!(bucket.key(), b"b");
}

#[test]
fn errors_read_as_text() {
    let texts = [
        (Error::Corrupt("bad"), "corrupt database: bad"),
        (Error::InvalidDB(Fault::Text("odd")), "invalid database: odd"),
        (Error::InvalidDB(Fault::One("page ", 120, " is odd")), "invalid database: page 120 is odd"),
        (Error::BucketNotFound, "bucket not found"),
        (Error::BucketMissing, "bucket does not exist"),
        (Error::BucketExists, "bucket already exists"),
        (Error::TooLarge, "key, value, or transaction is too large"),
        (Error::IncompatibleValue, "incompatible value"),
        (Error::KeyValueMissing, "key/value pair missing"),
        (Error::ReadOnlyTx, "transaction is read-only"),
        (Error::ReadOnlyDB, "database is read-only"),
        (Error::Sync("x"), "synchronization error: x"),
        (Error::WriterTimeout, "timed out waiting for the writer"),
        (
            Error::CapacityExceeded { required: 10, maximum: 9 },
            "capacity exceeded: 10 bytes required, 9 allowed",
        ),
        (Error::MergeConflict { path: vec![] }, "merge conflict"),
    ];
    for (error, text) in texts {
        assert_eq!(error.message(), text);
    }
}
