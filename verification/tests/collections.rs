use inspace::api::tree::Node;
use inspace::api::tx::Tx;
use inspace::application::collection::ReadCollection;
use inspace::application::definition::{schema_bytes, schema_key, validate_definition, CollectionDef, OpenPolicy};
use inspace::application::iter::CollectionIter;
use inspace::application::writing::{NumericValueCodec, WriteOptions};
use inspace::error::Error;
use inspace::typed::codecs::{escape, unescape, BytesCodec, I64Codec, StringCodec, StringPairCodec, U64Codec};
use inspace::typed::{CodecError, KeyCodec, TypedBucket, TypedCodec, ValueCodec};

type Users = CollectionDef<u64, String, TypedCodec<U64Codec, StringCodec>>;

fn users() -> Users {
    CollectionDef::new("users", TypedCodec::new(U64Codec, StringCodec))
}

fn text(s: &str) -> String {
    String::from(s)
}

fn all(mut iter: CollectionIter<'_, u64, String, TypedCodec<U64Codec, StringCodec>>, now: u64) -> Vec<u64> {
    let mut keys = Vec::new();
    while let Some(item) = iter.next(now) {
        keys.push(item.unwrap().0);
    }
    keys
}

/// A database whose collection `users` holds the keys 1 to `n`.
fn filled(n: u64) -> Node {
    let def = users();
    let mut tx = Tx::new(Node::new(), 1, true);
    {
        let mut users = tx.collection_mut(&def).unwrap();
        for i in 1..n + 1 {
            users.insert(&i, &format!("user {i}")).unwrap();
        }
    }
    tx.commit().unwrap().0
}

fn complaint<T>(result: Result<T, CodecError>) -> String {
    match result {
        Ok(_) => panic!("the bytes were decoded"),
        Err(error) => error.message(),
    }
}

#[test]
fn escaped_texts_read_back() {
    let texts = ["", "a", "a\0", "a\0b", "ab", "b"];
    for pair in texts.windows(2) {
        assert!(escape(pair[0]) < escape(pair[1]));
    }
    for text in texts {
        let mut bytes = escape(text);
        let used = bytes.len();
        bytes.extend_from_slice(&[0, 255, 7]);
        assert_eq!(unescape(&bytes).unwrap(), (text.to_string(), used));
        for other in texts {
            assert_eq!(escape(other).starts_with(&escape(text)), other == text);
        }
    }
    assert_eq!(escape("a\0"), [b'a', 0, 255, 0, 0]);
}

#[test]
fn codecs_name_what_they_refuse() {
    assert_eq!(
        complaint(<U64Codec as KeyCodec<u64>>::decode_key(&U64Codec, &[1])),
        "decode error: u64 key must contain 8 bytes"
    );
    assert_eq!(
        complaint(<U64Codec as ValueCodec<u64>>::decode_value(&U64Codec, &[1; 9])),
        "decode error: u64 value must contain 8 bytes"
    );
    assert_eq!(
        complaint(<I64Codec as KeyCodec<i64>>::decode_key(&I64Codec, &[])),
        "decode error: i64 key must contain 8 bytes"
    );
    assert_eq!(
        complaint(<I64Codec as ValueCodec<i64>>::decode_value(&I64Codec, &[0; 7])),
        "decode error: i64 value must contain 8 bytes"
    );
    assert_eq!(
        complaint(<StringCodec as KeyCodec<String>>::decode_key(&StringCodec, &[b'a', 0xff])),
        format!("decode error: {}", String::from_utf8(vec![b'a', 0xff]).unwrap_err())
    );
    for (bytes, reason) in [
        (&[b'a'][..], "unterminated compound key"),
        (&[b'a', 0][..], "invalid compound key escape"),
        (&[0, 1][..], "invalid compound key escape"),
        (&[0, 0, b'b'][..], "unterminated compound key"),
        (&[0, 0, 0, 0, 7][..], "trailing compound key bytes"),
    ] {
        assert_eq!(complaint(StringPairCodec.decode_key(bytes)), format!("decode error: {}", reason));
    }
}

#[test]
fn integer_codecs_keep_order() {
    let numbers = [0_u64, 1, 255, 256, u64::MAX];
    for pair in numbers.windows(2) {
        assert!(U64Codec.encode_key(&pair[0]).unwrap() < U64Codec.encode_key(&pair[1]).unwrap());
    }
    let signed = [i64::MIN, -256, -1, 0, 1, i64::MAX];
    for pair in signed.windows(2) {
        assert!(I64Codec.encode_key(&pair[0]).unwrap() < I64Codec.encode_key(&pair[1]).unwrap());
    }
    for n in signed {
        assert_eq!(I64Codec.decode_key(&I64Codec.encode_key(&n).unwrap()).unwrap(), n);
        assert_eq!(I64Codec.decode_value(&I64Codec.encode_value(&n).unwrap()).unwrap(), n);
    }
    assert_eq!(U64Codec.encode_key(&258).unwrap(), [0, 0, 0, 0, 0, 0, 1, 2]);
    assert_eq!(U64Codec.decode_value(&U64Codec.encode_value(&258).unwrap()).unwrap(), 258);
    assert!(<U64Codec as KeyCodec<u64>>::decode_key(&U64Codec, &[1]).is_err());
}

#[test]
fn text_codecs_read_utf8() {
    let word = text("h\u{e9}llo \u{1F980}");
    let bytes = StringCodec.encode_key(&word).unwrap();
    assert_eq!(bytes, word.as_bytes());
    assert_eq!(StringCodec.decode_key(&bytes).unwrap(), word);
    assert_eq!(StringCodec.decode_value(&bytes).unwrap(), word);
    assert!(<StringCodec as KeyCodec<String>>::decode_key(&StringCodec, &[0xff]).is_err());
    assert!(<StringCodec as ValueCodec<String>>::decode_value(&StringCodec, &[0xe2, 0x82]).is_err());
    assert_eq!(BytesCodec.decode_key(&BytesCodec.encode_key(&vec![0, 1]).unwrap()).unwrap(), [0, 1]);
}

#[test]
fn pair_codecs_keep_order() {
    let pairs = [
        (text(""), text("z")),
        (text("a"), text("")),
        (text("a"), text("b")),
        (text("a\0"), text("a")),
        (text("ab"), text("")),
    ];
    let encoded: Vec<Vec<u8>> = pairs.iter().map(|p| StringPairCodec.encode_key(p).unwrap()).collect();
    for i in 1..encoded.len() {
        assert!(encoded[i - 1] < encoded[i]);
    }
    for (pair, bytes) in pairs.iter().zip(&encoded) {
        assert_eq!(&StringPairCodec.decode_key(bytes).unwrap(), pair);
    }
    assert!(StringPairCodec.decode_key(&[1, 2, 3]).is_err());
}

#[test]
fn typed_buckets_convert() {
    let mut tx = Tx::new(Node::new(), 1, true);
    let raw = tx.create_bucket(b"b").unwrap();
    let mut bucket: TypedBucket<'_, u64, String, _> =
        TypedBucket::new(raw, TypedCodec::new(U64Codec, StringCodec));
    assert_eq!(bucket.put(&2, &text("two")).unwrap(), None);
    assert_eq!(bucket.put(&2, &text("zwei")).unwrap(), Some(text("two")));
    bucket.put(&300, &text("more")).unwrap();
    bucket.put(&1, &text("one")).unwrap();
    assert_eq!(bucket.get(&2).unwrap(), Some(text("zwei")));
    assert_eq!(
        bucket.entries().unwrap(),
        vec![(1, text("one")), (2, text("zwei")), (300, text("more"))]
    );
    assert_eq!(bucket.range_inclusive(&2, &299).unwrap(), vec![(2, text("zwei"))]);
    assert_eq!(bucket.delete(&2).unwrap(), text("zwei"));
    assert!(matches!(bucket.delete(&2), Err(CodecError::Storage(Error::KeyValueMissing))));
    assert_eq!(bucket.raw().len(), 2);
}

/// A codec that does not keep the order of its keys.
#[derive(Clone, Copy)]
struct Backwards;

impl KeyCodec<u64> for Backwards {
    const ORDER_PRESERVING: bool = false;

    fn encode_key(&self, key: &u64) -> Result<Vec<u8>, CodecError> {
        Ok((!*key).to_be_bytes().to_vec())
    }

    fn decode_key(&self, s: &[u8]) -> Result<u64, CodecError> {
        U64Codec.decode_key(s).map(|key: u64| !key)
    }
}

impl ValueCodec<u64> for Backwards {
    fn encode_value(&self, value: &u64) -> Result<Vec<u8>, CodecError> {
        U64Codec.encode_value(value)
    }

    fn decode_value(&self, s: &[u8]) -> Result<u64, CodecError> {
        U64Codec.decode_value(s)
    }
}

impl NumericValueCodec<u64> for Backwards {}

#[test]
fn ranges_need_ordered_keys() {
    let def: CollectionDef<u64, u64, Backwards> = CollectionDef::new("odd", Backwards);
    let mut tx = Tx::new(Node::new(), 1, true);
    {
        let mut odd = tx.collection_mut(&def).unwrap();
        odd.insert(&1, &1).unwrap();
        assert!(matches!(odd.as_read().range(&1, &2), Err(CodecError::OrderingRequired)));
        assert!(matches!(odd.insert_ordered(&vec![(1, 1)]), Err(CodecError::OrderingRequired)));
        assert_eq!(odd.fetch_add(&7, 5, 0).unwrap(), 0);
        assert_eq!(odd.fetch_add(&7, 6, 0).unwrap(), 5);
        assert_eq!(odd.get(&7, 0).unwrap(), Some(11));
    }
    let raw = tx.get_bucket(b"odd").unwrap();
    let bucket: TypedBucket<'_, u64, u64, Backwards> = TypedBucket::new(raw, Backwards);
    assert!(matches!(bucket.range_inclusive(&1, &2), Err(CodecError::OrderingRequired)));
}

#[test]
fn collections_open_by_policy() {
    let mut tx = Tx::new(Node::new(), 1, true);
    let existing = users().open_policy(OpenPolicy::Existing);
    assert!(matches!(
        tx.collection_mut(&existing),
        Err(CodecError::Storage(Error::BucketMissing))
    ));
    let create = users().open_policy(OpenPolicy::Create);
    assert!(tx.collection_mut(&create).is_ok());
    assert!(matches!(
        tx.collection_mut(&create),
        Err(CodecError::Storage(Error::BucketExists))
    ));
    assert!(tx.collection_mut(&existing).is_ok());
    assert!(tx.collection(&users()).is_ok());
    let nameless: CollectionDef<u64, u64, U64Codec> = CollectionDef::new("", U64Codec);
    assert!(matches!(validate_definition(&nameless), Err(CodecError::InvalidDefinition)));
    assert!(matches!(tx.collection_mut(&nameless), Err(CodecError::InvalidDefinition)));
}

#[test]
fn schemas_are_checked() {
    let mut tx = Tx::new(Node::new(), 1, true);
    tx.create_bucket(b"users").unwrap();
    let known = users().schema("people", 2);
    assert_eq!((known.name(), known.schema_id(), known.schema_version()), ("users", "people", 2));
    assert_ne!(schema_key(&known), schema_bytes(&known));
    match tx.collection_mut(&known) {
        Err(error) => assert_eq!(error.message(), "collection \"users\" has no schema metadata"),
        Ok(_) => panic!("there is no schema"),
    }
    let mut tx = Tx::new(Node::new(), 1, true);
    tx.collection_mut(&known).unwrap();
    assert!(tx.collection_mut(&known).is_ok());
    let newer = users().schema("pe\"ople", 3);
    match tx.collection_mut(&newer) {
        Err(error) => assert_eq!(
            error.message(),
            "collection \"users\" does not match schema \"pe\\\"ople\" version 3"
        ),
        Ok(_) => panic!("the schema differs"),
    }
}

#[test]
fn codec_errors_read_as_text() {
    assert_eq!(CodecError::Encode(text("x")).message(), "encode error: x");
    assert_eq!(CodecError::Decode(text("y")).message(), "decode error: y");
    assert_eq!(
        CodecError::from(Error::BucketExists).message(),
        "storage error: bucket already exists"
    );
    assert_eq!(CodecError::OrderingRequired.message(), "key codec does not preserve byte ordering");
    assert_eq!(CodecError::InputNotOrdered.message(), "input is not strictly ordered");
    assert_eq!(CodecError::InvalidDefinition.message(), "invalid collection definition");
}

#[test]
fn collections_are_read_and_walked() {
    let def = users();
    let tx = Tx::new(filled(5), 2, false);
    let users: ReadCollection<'_, u64, String, _> = tx.collection(&def).unwrap();
    assert_eq!(users.get(&3, 0).unwrap(), Some(text("user 3")));
    assert_eq!(users.get_owned(&9, 0).unwrap(), None);
    assert!(users.contains_key(&1, 0).unwrap());
    assert_eq!(users.multi_get(&vec![1, 9], 0).unwrap(), vec![Some(text("user 1")), None]);
    assert_eq!(all(users.iter(), 0), [1, 2, 3, 4, 5]);
    assert_eq!(all(users.iter_rev(), 0), [5, 4, 3, 2, 1]);
    assert_eq!(all(users.seek(&3).unwrap(), 0), [3, 4, 5]);
    assert_eq!(all(users.range(&2, &4).unwrap(), 0), [2, 3]);
    assert_eq!(all(users.iter().take_records(2), 0), [1, 2]);
    assert_eq!(all(users.prefix(&[0, 0, 0, 0, 0, 0, 0]), 0), [1, 2, 3, 4, 5]);
    assert_eq!(all(users.prefix(&[1]), 0), [0_u64; 0]);
    assert_eq!(users.first(0).unwrap(), Some((1, text("user 1"))));
    assert_eq!(users.last(0).unwrap(), Some((5, text("user 5"))));
    assert_eq!(users.len(), 5);
    assert!(!users.is_empty());
}

#[test]
fn the_first_unreadable_value_is_reported() {
    let def = users();
    let mut tx = Tx::new(filled(3), 2, true);
    {
        let mut raw = tx.get_bucket(b"users").unwrap();
        raw.put(&2_u64.to_be_bytes(), vec![b'a', 0xff]).unwrap();
        raw.put(&3_u64.to_be_bytes(), vec![0xff]).unwrap();
    }
    let users: ReadCollection<'_, u64, String, _> = tx.collection(&def).unwrap();
    let second = complaint(users.get(&2, 0));
    let third = complaint(users.get(&3, 0));
    assert_ne!(second, third);
    assert_eq!(complaint(users.multi_get(&vec![1, 2, 3], 0)), second);
    assert_eq!(complaint(users.multi_get(&vec![1, 3, 2], 0)), third);
}

#[test]
fn pages_continue_where_the_last_one_ended() {
    let def = users();
    let tx = Tx::new(filled(5), 2, false);
    let users = tx.collection(&def).unwrap();
    let mut seen = Vec::new();
    let mut token = None;
    loop {
        let page = users.page_after(token.as_ref(), 2, 0).unwrap();
        seen.extend(page.items.iter().map(|item| item.0));
        token = page.next;
        if token.is_none() {
            break;
        }
        assert_eq!(token.as_ref().unwrap().as_bytes(), U64Codec.encode_key(seen.last().unwrap()).unwrap());
    }
    assert_eq!(seen, [1, 2, 3, 4, 5]);
}

#[test]
fn expired_records_are_passed_over() {
    let def = users();
    let mut tx = Tx::new(filled(3), 2, true);
    let mut users = tx.collection_mut(&def).unwrap();
    users.insert_with_options(&2, &text("gone"), WriteOptions::expires_at(100)).unwrap();
    assert_eq!(users.get(&2, 99).unwrap(), Some(text("gone")));
    assert_eq!(users.get(&2, 100).unwrap(), None);
    assert_eq!(all(users.iter(), 100), [1, 3]);
    assert_eq!(all(users.iter_rev(), 100), [3, 1]);
    users.insert(&2, &text("back")).unwrap();
    assert_eq!(users.get(&2, 100).unwrap(), Some(text("back")));
}

#[test]
fn collections_are_changed() {
    let def = users();
    let mut tx = Tx::new(filled(6), 2, true);
    let mut users = tx.collection_mut(&def).unwrap();
    assert_eq!(users.insert(&1, &text("x")).unwrap(), Some(text("user 1")));
    assert_eq!(users.remove(&1).unwrap(), Some(text("x")));
    assert_eq!(users.remove(&1).unwrap(), None);
    assert_eq!(users.pop_first(0).unwrap(), Some((2, text("user 2"))));
    assert_eq!(users.pop_last(0).unwrap(), Some((6, text("user 6"))));
    assert_eq!(users.delete_range(&3, &5, 0).unwrap(), 2);
    assert_eq!(all(users.iter(), 0), [5]);
    users.insert_many(&vec![(8, text("eight")), (9, text("nine"))]).unwrap();
    assert_eq!(users.remove_many(&vec![8, 1]).unwrap(), vec![Some(text("eight")), None]);
    assert!(matches!(
        users.insert_ordered(&vec![(20, text("a")), (19, text("b"))]),
        Err(CodecError::InputNotOrdered)
    ));
    assert_eq!(users.insert_ordered(&vec![(30, text("a")), (31, text("b"))]).unwrap(), 2);
    let outcome = users.compare_exchange(&30, Some(&text("a")), &text("c")).unwrap();
    assert!(outcome.applied);
    assert_eq!(outcome.observed, Some(text("a")));
    assert_eq!(outcome.current, Some(text("c")));
    assert!(!users.compare_exchange(&31, None, &text("c")).unwrap().applied);
    assert!(users.delete_prefix(&[0, 0, 0, 0, 0, 0, 0, 30], 0).unwrap() == 1);
    assert!(users.contains_key(&31, 0).unwrap());
    assert!(users.clear().unwrap() >= 1);
    assert!(users.as_read().is_empty());
}

#[test]
fn entries_are_filled_and_changed() {
    let def = users();
    let mut tx = Tx::new(filled(1), 2, true);
    let mut users = tx.collection_mut(&def).unwrap();
    {
        let entry = users.entry(1, 0).unwrap();
        assert!(entry.is_occupied());
        assert_eq!(entry.get(), Some(&text("user 1")));
        let entry = entry.and_modify(|name| name + "!").unwrap();
        assert_eq!(entry.or_insert(text("other")).unwrap(), text("user 1!"));
    }
    {
        let entry = users.entry(2, 0).unwrap();
        assert!(entry.is_vacant());
        assert_eq!(entry.or_insert_with(|| text("made")).unwrap(), text("made"));
    }
    assert_eq!(users.entry(2, 0).unwrap().replace(text("new")).unwrap(), Some(text("made")));
    assert_eq!(users.entry(2, 0).unwrap().remove().unwrap(), Some(text("new")));
    assert_eq!(users.get(&1, 0).unwrap(), Some(text("user 1!")));
    assert_eq!(users.get(&2, 0).unwrap(), None);
}

#[test]
fn batches_apply_together() {
    let def = users();
    let mut tx = Tx::new(filled(2), 2, true);
    let mut batch = tx.batch();
    assert!(batch.is_empty());
    batch.insert(&def, &7, &text("seven")).unwrap();
    batch.insert_with_options(&def, &8, &text("eight"), WriteOptions::expires_at(10)).unwrap();
    batch.remove(&def, &1).unwrap();
    assert_eq!(batch.len(), 3);
    assert_eq!(batch.apply().unwrap(), 3);
    let users = tx.collection(&def).unwrap();
    assert_eq!(all(users.iter(), 0), [2, 7, 8]);
    assert_eq!(all(users.iter(), 10), [2, 7]);
}
