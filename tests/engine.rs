use kvs::codec::{frame_record, read_record, scan_log, u64_to_be, RecordError};
use kvs::engine::{value_in_record, Location, Record};
use kvs::{KvStore, KvsError, MPCommand};

fn put(k: &str, v: &str) -> MPCommand {
    MPCommand::Put { key: k.to_owned(), value: v.to_owned() }
}

fn rm(k: &str) -> MPCommand {
    MPCommand::Rm { key: k.to_owned() }
}

/// A log file kept in memory: its bytes and the commands written to it.
struct Disk {
    image: Vec<u8>,
    written: Vec<(MPCommand, u64)>,
}

impl Disk {
    fn new() -> Disk {
        Disk { image: Vec::new(), written: Vec::new() }
    }

    fn set(&mut self, store: &mut KvStore, k: &str, v: &str) -> bool {
        let payload = format!("set {} {}", k, v).into_bytes();
        let a = store.set(k.to_owned(), v.to_owned(), &payload);
        assert_eq!(a.offset as usize, self.image.len());
        self.image.extend_from_slice(&a.record);
        self.written.push((put(k, v), a.record.len() as u64));
        assert_eq!(a.compact, store.needs_compaction());
        a.compact
    }

    fn remove(&mut self, store: &mut KvStore, k: &str) -> Result<(), KvsError> {
        let payload = format!("rm {}", k).into_bytes();
        let a = store.remove(k.to_owned(), &payload)?;
        assert_eq!(a.offset as usize, self.image.len());
        self.image.extend_from_slice(&a.record);
        self.written.push((rm(k), a.record.len() as u64));
        Ok(())
    }

    fn records(&self, n: usize) -> Vec<Record> {
        self.written[..n].iter().map(|(c, len)| Record { cmd: c.clone(), len: *len }).collect()
    }

    fn reopen(&self) -> KvStore {
        KvStore::open(&self.records(self.written.len())).unwrap()
    }

    fn payload_at(&self, loc: Location) -> Vec<u8> {
        let (s, n) = read_record(&self.image, loc.offset as usize).unwrap();
        assert_eq!((n + 8) as u64, loc.len);
        self.image[s..s + n].to_vec()
    }

    fn compact(&mut self, store: &mut KvStore) {
        let plan = store.compaction_plan();
        let mut image = Vec::new();
        let mut written = Vec::new();
        for loc in plan {
            let start = loc.offset as usize;
            let end = start + loc.len as usize;
            let (_, cmd_len) = self.written.iter().fold((0u64, None), |(off, found), (c, l)| {
                if off == loc.offset { (off + l, Some((c.clone(), *l))) } else { (off + l, found) }
            });
            written.push(cmd_len.unwrap());
            image.extend_from_slice(&self.image[start..end]);
        }
        store.compact();
        self.image = image;
        self.written = written;
    }
}

#[test]
fn frame_record_prefixes_big_endian_length() {
    assert_eq!(frame_record(&[1, 2, 3]), vec![0, 0, 0, 0, 0, 0, 0, 3, 1, 2, 3]);
    assert_eq!(u64_to_be(0x0102030405060708), vec![1, 2, 3, 4, 5, 6, 7, 8]);
}

#[test]
fn read_record_finds_payload() {
    let mut log = frame_record(b"abc");
    log.extend_from_slice(&frame_record(b""));
    assert_eq!(read_record(&log, 0), Ok((8, 3)));
    assert_eq!(read_record(&log, 11), Ok((19, 0)));
    assert_eq!(read_record(&log, 19), Err(RecordError::EndOfLog));
}

#[test]
fn read_record_tells_damage_from_end() {
    let log = frame_record(b"abc");
    assert_eq!(read_record(&log[..5], 0), Err(RecordError::MalformedRecord));
    assert_eq!(read_record(&log[..10], 0), Err(RecordError::MalformedRecord));
    assert_eq!(read_record(&[], 0), Err(RecordError::EndOfLog));
}

#[test]
fn set_close_reopen_get() {
    let mut disk = Disk::new();
    let mut store = KvStore::new();
    disk.set(&mut store, "k", "v");
    let reopened = disk.reopen();
    let loc = reopened.get("k".to_owned()).unwrap();
    assert_eq!(loc, Location { offset: 0, len: 15 });
    assert_eq!(disk.payload_at(loc), b"set k v".to_vec());
}

#[test]
fn overwrite_survives_reopen() {
    let mut disk = Disk::new();
    let mut store = KvStore::new();
    disk.set(&mut store, "k", "v1");
    disk.set(&mut store, "k", "v2");
    let loc = store.get("k".to_owned()).unwrap();
    assert_eq!(disk.payload_at(loc), b"set k v2".to_vec());
    let reopened = disk.reopen();
    let loc = reopened.get("k".to_owned()).unwrap();
    assert_eq!(disk.payload_at(loc), b"set k v2".to_vec());
    assert_eq!(reopened.redundancy_count(), 1);
}

#[test]
fn remove_then_get_and_remove_again() {
    let mut disk = Disk::new();
    let mut store = KvStore::new();
    disk.set(&mut store, "k", "v");
    assert_eq!(disk.remove(&mut store, "k"), Ok(()));
    assert_eq!(store.get("k".to_owned()), None);
    let size = store.log_size();
    assert_eq!(disk.remove(&mut store, "k"), Err(KvsError::KeyNotFound));
    assert_eq!(store.log_size(), size);
    assert_eq!(disk.reopen().get("k".to_owned()), None);
    assert_eq!(store.redundancy_count(), 2);
}

#[test]
fn remove_of_never_set_key() {
    let mut store = KvStore::new();
    assert!(matches!(store.remove("x".to_owned(), b"rm x"), Err(KvsError::KeyNotFound)));
    assert_eq!(store.log_size(), 0);
    assert_eq!(store.redundancy_count(), 0);
}

#[test]
fn setting_twice_adds_one_redundancy() {
    let mut disk = Disk::new();
    let mut store = KvStore::new();
    disk.set(&mut store, "k", "v");
    assert_eq!(store.redundancy_count(), 0);
    disk.set(&mut store, "k", "v");
    assert_eq!(store.redundancy_count(), 1);
    let loc = store.get("k".to_owned()).unwrap();
    assert_eq!(disk.payload_at(loc), b"set k v".to_vec());
}

#[test]
fn many_overwrites_compact_automatically() {
    let mut disk = Disk::new();
    let mut store = KvStore::new();
    let mut compactions = 0;
    for i in 0..400 {
        let due = disk.set(&mut store, "k", &i.to_string());
        if i == 4 {
            assert!(due);
            assert_eq!(store.redundancy_count(), 4);
        }
        if due {
            assert!(store.redundancy_count() > 3);
            compactions += 1;
            let before = store.log_size();
            disk.compact(&mut store);
            assert_eq!(store.redundancy_count(), 0);
            assert!(store.log_size() * 2 < before);
        }
    }
    assert!(compactions > 0);
    assert_eq!(store.log_size() as usize, disk.image.len());
    let loc = store.get("k".to_owned()).unwrap();
    assert_eq!(disk.payload_at(loc), b"set k 399".to_vec());
}

#[test]
fn compaction_keeps_every_value() {
    let mut disk = Disk::new();
    let mut store = KvStore::new();
    disk.set(&mut store, "a", "1");
    disk.set(&mut store, "b", "2");
    disk.set(&mut store, "a", "3");
    disk.set(&mut store, "c", "4");
    disk.remove(&mut store, "b").unwrap();
    let before = store.log_size();
    disk.compact(&mut store);
    assert!(store.log_size() <= before);
    assert_eq!(store.redundancy_count(), 0);
    assert_eq!(disk.payload_at(store.get("a".to_owned()).unwrap()), b"set a 3".to_vec());
    assert_eq!(disk.payload_at(store.get("c".to_owned()).unwrap()), b"set c 4".to_vec());
    assert_eq!(store.get("b".to_owned()), None);
    let reopened = disk.reopen();
    assert_eq!(disk.payload_at(reopened.get("a".to_owned()).unwrap()), b"set a 3".to_vec());
    assert_eq!(reopened.get("b".to_owned()), None);
}

#[test]
fn truncated_log_replays_surviving_prefix() {
    let mut disk = Disk::new();
    let mut store = KvStore::new();
    disk.set(&mut store, "a", "1");
    disk.set(&mut store, "b", "2");
    disk.remove(&mut store, "a").unwrap();
    let two = KvStore::open(&disk.records(2)).unwrap();
    assert_eq!(two.get("a".to_owned()), Some(Location { offset: 0, len: 15 }));
    assert_eq!(two.get("b".to_owned()), Some(Location { offset: 15, len: 15 }));
    let three = KvStore::open(&disk.records(3)).unwrap();
    assert_eq!(three.get("a".to_owned()), None);
    assert_eq!(three.redundancy_count(), 2);
    let none = KvStore::open(&disk.records(0)).unwrap();
    assert_eq!(none.get("b".to_owned()), None);
}

#[test]
fn get_record_in_log_is_corrupt() {
    let records = vec![
        Record { cmd: put("a", "1"), len: 15 },
        Record { cmd: MPCommand::Get { key: "a".to_owned() }, len: 12 },
    ];
    assert!(matches!(KvStore::open(&records), Err(KvsError::CorruptLog)));
    let short = vec![Record { cmd: put("a", "1"), len: 3 }];
    assert!(matches!(KvStore::open(&short), Err(KvsError::CorruptLog)));
}

#[test]
fn empty_store_has_nothing() {
    let store = KvStore::new();
    assert_eq!(store.get("k".to_owned()), None);
    assert_eq!(store.log_size(), 0);
    assert!(!store.needs_compaction());
    assert!(store.compaction_plan().is_empty());
}

#[test]
fn scan_log_splits_records() {
    let mut log = frame_record(b"abc");
    log.extend_from_slice(&frame_record(b""));
    log.extend_from_slice(&frame_record(b"xy"));
    assert_eq!(scan_log(&log), Ok(vec![(8, 3), (19, 0), (27, 2)]));
    assert_eq!(scan_log(&[]), Ok(vec![]));
    assert_eq!(scan_log(&log[..log.len() - 1]), Err(RecordError::MalformedRecord));
    assert_eq!(scan_log(&log[..14]), Err(RecordError::MalformedRecord));
}

#[test]
fn record_read_back_must_be_a_put() {
    assert_eq!(value_in_record(put("k", "v")), Ok("v".to_owned()));
    assert_eq!(value_in_record(rm("k")), Err(KvsError::CorruptLog));
    assert_eq!(
        value_in_record(MPCommand::Get { key: "k".to_owned() }),
        Err(KvsError::CorruptLog)
    );
}

#[test]
fn first_compaction_due_at_fifth_overwrite() {
    let mut disk = Disk::new();
    let mut store = KvStore::new();
    for i in 0..4 {
        assert!(!disk.set(&mut store, "k", &i.to_string()));
    }
    assert!(disk.set(&mut store, "k", "4"));
    disk.compact(&mut store);
    assert_eq!(disk.written.len(), 1);
    assert_eq!(store.redundancy_count(), 0);
    assert!(!store.needs_compaction());
}
