use std::collections::HashMap;

use kvs::protocol::Reply;
use kvs::server::{get_reply, remove_reply, set_reply};
use kvs::sled_engine::{removed_outcome, stored_value};
use kvs::{KvsClient, KvsEngine, KvsError, KvsServer, MPCommand, SledEngine};

struct MapEngine {
    map: HashMap<String, String>,
}

impl KvsEngine for MapEngine {
    fn set(&mut self, key: String, value: String) -> Result<(), KvsError> {
        self.map.insert(key, value);
        Ok(())
    }

    fn get(&mut self, key: String) -> Result<Option<String>, KvsError> {
        Ok(self.map.get(&key).cloned())
    }

    fn remove(&mut self, key: String) -> Result<(), KvsError> {
        match self.map.remove(&key) {
            Some(_) => Ok(()),
            None => Err(KvsError::KeyNotFound),
        }
    }
}

fn be(n: u64) -> Vec<u8> {
    n.to_be_bytes().to_vec()
}

#[test]
fn request_frame_layout_and_round_trip() {
    let payloads = vec![b"abc".to_vec(), Vec::new()];
    let frame = KvsClient::encode_request(&payloads);
    let mut expected = vec![b'*'];
    expected.extend(be(2));
    expected.extend(be(3));
    expected.extend(b"abc");
    expected.extend(be(0));
    assert_eq!(frame, expected);
    assert_eq!(KvsServer::decode_request(&frame), Ok(payloads.clone()));
    let mut longer = frame.clone();
    longer.extend(b"trailing");
    assert_eq!(KvsServer::decode_request(&longer), Ok(payloads));
}

#[test]
fn set_request_gets_empty_ok() {
    let mut engine = MapEngine { map: HashMap::new() };
    let cmds = vec![MPCommand::Put { key: "a".to_owned(), value: "b".to_owned() }];
    let response = KvsServer::respond(&mut engine, cmds);
    let mut expected = vec![b'*'];
    expected.extend(be(1));
    expected.push(b'+');
    expected.extend(be(0));
    assert_eq!(response, expected);
    assert_eq!(engine.map.get("a"), Some(&"b".to_owned()));
}

#[test]
fn get_of_missing_key_replies_key_not_found() {
    let mut engine = MapEngine { map: HashMap::new() };
    let cmds = vec![MPCommand::Get { key: "missing".to_owned() }];
    let response = KvsServer::respond(&mut engine, cmds);
    let mut expected = vec![b'*'];
    expected.extend(be(1));
    expected.push(b'+');
    expected.extend(be(13));
    expected.extend(b"Key not found");
    assert_eq!(response, expected);
}

#[test]
fn one_reply_per_command() {
    let mut engine = MapEngine { map: HashMap::new() };
    let cmds = vec![
        MPCommand::Put { key: "k".to_owned(), value: "v".to_owned() },
        MPCommand::Get { key: "k".to_owned() },
        MPCommand::Rm { key: "k".to_owned() },
        MPCommand::Rm { key: "k".to_owned() },
    ];
    let response = KvsServer::respond(&mut engine, cmds);
    let mut expected = vec![b'*'];
    expected.extend(be(4));
    expected.push(b'+');
    expected.extend(be(0));
    expected.push(b'+');
    expected.extend(be(1));
    expected.push(b'v');
    expected.push(b'+');
    expected.extend(be(0));
    expected.push(b'-');
    expected.extend(be(13));
    expected.extend(b"Key not found");
    assert_eq!(response, expected);
}

#[test]
fn bad_sentinel_is_refused() {
    let mut frame = KvsClient::encode_request(&vec![b"abc".to_vec()]);
    frame[0] = b'#';
    assert_eq!(KvsServer::decode_request(&frame), Err(KvsError::Protocol));
    assert_eq!(KvsServer::decode_request(&[]), Err(KvsError::Protocol));
}

#[test]
fn short_frame_is_refused() {
    let frame = KvsClient::encode_request(&vec![b"abc".to_vec()]);
    assert_eq!(KvsServer::decode_request(&frame[..frame.len() - 1]), Err(KvsError::Protocol));
    assert_eq!(KvsServer::decode_request(&frame[..5]), Err(KvsError::Protocol));
}

#[test]
fn replies_for_each_outcome() {
    let r: Reply = get_reply(Ok(Some("v".to_owned())));
    assert!(r.ok && r.msg == b"v".to_vec());
    let r = get_reply(Err(KvsError::Io));
    assert!(!r.ok && r.msg == b"Error getting key".to_vec());
    let r = set_reply(Err(KvsError::Io));
    assert!(!r.ok && r.msg == b"Error setting key value pair".to_vec());
    let r = remove_reply(Err(KvsError::KeyNotFound));
    assert!(!r.ok && r.msg == b"Key not found".to_vec());
    let r = remove_reply(Err(KvsError::CorruptLog));
    assert!(!r.ok && r.msg == b"Error removing key".to_vec());
    let r = remove_reply(Ok(()));
    assert!(r.ok && r.msg.is_empty());
}

#[test]
fn sled_results_map_to_outcomes() {
    assert_eq!(stored_value(Ok(Some(b"bar".to_vec()))), Ok(Some("bar".to_owned())));
    assert_eq!(stored_value(Ok(Some(vec![0xff, 0xfe]))), Err(KvsError::Encoding));
    assert_eq!(stored_value(Ok(None)), Ok(None));
    assert_eq!(stored_value(Err(sled::Error::Unsupported("x".to_owned()))), Err(KvsError::Io));
    assert_eq!(removed_outcome(Ok(Some(b"bar".to_vec()))), Ok(()));
    assert_eq!(removed_outcome(Ok(None)), Err(KvsError::KeyNotFound));
    assert_eq!(
        removed_outcome(Err(sled::Error::Unsupported("x".to_owned()))),
        Err(KvsError::Io)
    );
}

#[test]
fn test_sled() {
    let db = sled::Config::new().temporary(true).open().unwrap();
    let mut sled = SledEngine::new(db);
    sled.set("foo".to_owned(), "bar".to_owned()).unwrap();
    let foo = sled.get("foo".to_owned()).unwrap();
    assert_eq!(foo, Some("bar".to_owned()));
    assert_eq!(sled.remove("foo".to_owned()), Ok(()));
    assert_eq!(sled.remove("foo".to_owned()), Err(KvsError::KeyNotFound));
    assert_eq!(sled.get("foo".to_owned()), Ok(None));
    sled.set("k".to_owned(), "v1".to_owned()).unwrap();
    sled.set("k".to_owned(), "v2".to_owned()).unwrap();
    assert_eq!(sled.get("k".to_owned()), Ok(Some("v2".to_owned())));
}

#[test]
fn response_frame_reads_back() {
    let replies = vec![
        Reply { ok: true, msg: b"v".to_vec() },
        Reply { ok: false, msg: b"Key not found".to_vec() },
    ];
    let frame = KvsServer::encode_response(&replies);
    let mut expected = vec![b'*'];
    expected.extend(be(2));
    expected.push(b'+');
    expected.extend(be(1));
    expected.push(b'v');
    expected.push(b'-');
    expected.extend(be(13));
    expected.extend(b"Key not found");
    assert_eq!(frame, expected);
    let back = KvsClient::decode_response(&frame).unwrap();
    assert_eq!(back.len(), 2);
    assert!(back[0].ok && back[0].msg == b"v".to_vec());
    assert!(!back[1].ok && back[1].msg == b"Key not found".to_vec());
}

#[test]
fn damaged_response_is_refused() {
    let frame = KvsServer::encode_response(&vec![Reply { ok: true, msg: b"v".to_vec() }]);
    let mut bad_status = frame.clone();
    bad_status[9] = b'?';
    assert!(matches!(KvsClient::decode_response(&bad_status), Err(KvsError::Protocol)));
    assert!(matches!(KvsClient::decode_response(&frame[..frame.len() - 1]), Err(KvsError::Protocol)));
    let mut bad_sentinel = frame.clone();
    bad_sentinel[0] = b'+';
    assert!(matches!(KvsClient::decode_response(&bad_sentinel), Err(KvsError::Protocol)));
}

#[test]
fn default_store_is_empty() {
    let store = kvs::KvStore::default();
    assert_eq!(store.log_size(), 0);
    assert_eq!(store.get("k".to_owned()), None);
}
