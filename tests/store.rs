use kvs::catalogue::{latest_generation, replay_order};
use kvs::record::{encode_record, parse_record};
use kvs::state::read_value;
use kvs::{Compaction, KvsError, LogState, Record, CAPACITY};

/// Segments kept in memory, driven the way the disk-backed store drives
/// its files.
struct MemStore {
    state: LogState,
    segments: Vec<(u64, Vec<u8>)>,
}

impl MemStore {
    fn open(segments: Vec<(u64, Vec<u8>)>) -> Result<MemStore, KvsError> {
        let gens: Vec<u64> = segments.iter().map(|s| s.0).collect();
        let current = latest_generation(&gens);
        let mut segments = segments;
        if segments.is_empty() {
            segments.push((0, Vec::new()));
        }
        let mut state = LogState::new(current);
        for gen in replay_order(gens) {
            let bytes = segments.iter().find(|s| s.0 == gen).unwrap().1.clone();
            state.replay_segment(gen, &bytes)?;
        }
        Ok(MemStore { state, segments })
    }

    fn segment(&mut self, gen: u64) -> &mut Vec<u8> {
        if !self.segments.iter().any(|s| s.0 == gen) {
            self.segments.push((gen, Vec::new()));
        }
        &mut self.segments.iter_mut().find(|s| s.0 == gen).unwrap().1
    }

    fn read(&self, gen: u64, pos: u64, len: u64) -> Vec<u8> {
        let seg = &self.segments.iter().find(|s| s.0 == gen).unwrap().1;
        seg[pos as usize..(pos + len) as usize].to_vec()
    }

    fn compact(&mut self) {
        let plan = self.state.compact().unwrap();
        self.carry_out(&plan);
    }

    fn carry_out(&mut self, plan: &Compaction) {
        let mut out = Vec::new();
        for t in &plan.transfers {
            out.extend(self.read(t.from.gen, t.from.pos, t.from.len));
        }
        self.segments.push((plan.target_gen, out));
        self.segments.push((plan.target_gen + 1, Vec::new()));
        self.segments.retain(|s| s.0 >= plan.target_gen);
    }

    fn set(&mut self, key: &str, value: &str) {
        let step = self.state.begin_set(&key.to_string(), &value.to_string()).unwrap();
        if let Some(plan) = &step.compaction {
            self.carry_out(plan);
        }
        let bytes = step.record;
        let gen = self.state.current_gen();
        let seg = self.segment(gen);
        let pos = seg.len() as u64;
        seg.extend_from_slice(&bytes);
        self.state.commit_set(key.to_string(), pos, bytes.len() as u64);
    }

    fn get(&self, key: &str) -> Result<Option<String>, KvsError> {
        match self.state.locate(&key.to_string()) {
            None => Ok(None),
            Some(loc) => read_value(&key.to_string(), &self.read(loc.gen, loc.pos, loc.len)).map(Some),
        }
    }

    fn remove(&mut self, key: &str) -> Result<(), KvsError> {
        let bytes = self.state.begin_remove(&key.to_string())?;
        let gen = self.state.current_gen();
        self.segment(gen).extend_from_slice(&bytes);
        Ok(())
    }

    fn total_bytes(&self) -> usize {
        self.segments.iter().map(|s| s.1.len()).sum()
    }
}

#[test]
fn get_on_empty_store_is_none() {
    let store = MemStore::open(Vec::new()).unwrap();
    assert_eq!(store.get("a"), Ok(None));
    assert_eq!(store.state.current_gen(), 0);
}

#[test]
fn overwrite_then_remove() {
    let mut store = MemStore::open(Vec::new()).unwrap();
    store.set("a", "1");
    store.set("a", "2");
    assert_eq!(store.get("a"), Ok(Some("2".to_string())));
    assert_eq!(store.remove("a"), Ok(()));
    assert_eq!(store.get("a"), Ok(None));
    assert_eq!(store.remove("a"), Err(KvsError::KeyNotFound));
}

#[test]
fn remove_of_unknown_key_fails() {
    let mut store = MemStore::open(Vec::new()).unwrap();
    assert_eq!(store.remove("never"), Err(KvsError::KeyNotFound));
}

#[test]
fn set_then_get_returns_value() {
    let mut store = MemStore::open(Vec::new()).unwrap();
    store.set("k", "v");
    store.set("other", "w");
    assert_eq!(store.get("k"), Ok(Some("v".to_string())));
    assert_eq!(store.state.uncompacted(), 2);
}

#[test]
fn ten_thousand_keys_survive_reopen() {
    let mut store = MemStore::open(Vec::new()).unwrap();
    for i in 0..10000 {
        store.set(&format!("k{}", i), &format!("v{}", i));
    }
    let reopened = MemStore::open(store.segments.clone()).unwrap();
    assert_eq!(reopened.get("k7777"), Ok(Some("v7777".to_string())));
    assert_eq!(reopened.state.len(), 10000);
}

#[test]
fn reopen_replays_removals() {
    let mut store = MemStore::open(Vec::new()).unwrap();
    store.set("a", "1");
    store.set("b", "2");
    store.remove("a").unwrap();
    store.set("b", "3");
    let reopened = MemStore::open(store.segments.clone()).unwrap();
    assert_eq!(reopened.get("a"), Ok(None));
    assert_eq!(reopened.get("b"), Ok(Some("3".to_string())));
    assert_eq!(reopened.state.uncompacted(), 3);
}

#[test]
fn overwrites_trigger_compaction() {
    let mut store = MemStore::open(Vec::new()).unwrap();
    for i in 0..5000 {
        store.set("x", &format!("value{}", i));
    }
    assert!(store.state.current_gen() >= 2);
    assert_eq!(store.get("x"), Ok(Some("value4999".to_string())));
    let reopened = MemStore::open(store.segments.clone()).unwrap();
    assert_eq!(reopened.get("x"), Ok(Some("value4999".to_string())));
}

#[test]
fn compaction_reclaims_space() {
    let mut store = MemStore::open(Vec::new()).unwrap();
    for i in 0..(3 * CAPACITY + 1) {
        store.set("x", &format!("{}", i % 10));
    }
    let one = encode_record(&Record::Put { key: "x".to_string(), value: "0".to_string() }).len();
    // One compacted record plus at most CAPACITY appends since.
    assert!(store.total_bytes() <= one * (CAPACITY as usize + 1));
    assert_eq!(store.segments.len(), 2);
}

#[test]
fn compaction_keeps_every_value() {
    let mut store = MemStore::open(Vec::new()).unwrap();
    for i in 0..50 {
        store.set(&format!("key{}", i), &format!("val{}", i));
    }
    store.remove("key7").unwrap();
    store.compact();
    assert_eq!(store.state.current_gen(), 2);
    assert_eq!(store.state.uncompacted(), 0);
    for i in 0..50 {
        let expected = if i == 7 { None } else { Some(format!("val{}", i)) };
        assert_eq!(store.get(&format!("key{}", i)), Ok(expected));
    }
    let loc = store.state.locate(&"key0".to_string()).unwrap();
    assert_eq!(loc.gen, 1);
    assert_eq!(loc.pos, 0);
}

#[test]
fn replay_of_garbage_is_parse_error() {
    let mut state = LogState::new(0);
    assert_eq!(state.replay_segment(0, b"{\"Set\":nonsense}"), Err(KvsError::Parse));
}

#[test]
fn replay_of_unknown_removal_is_key_not_found() {
    let bytes = encode_record(&Record::Rm { key: "ghost".to_string() });
    let mut state = LogState::new(0);
    assert_eq!(state.replay_segment(0, &bytes), Err(KvsError::KeyNotFound));
}

#[test]
fn replay_skips_whitespace_between_records() {
    let log = b"{\"Set\":{\"key\":\"a\",\"value\":\"1\"}}\n  {\"Set\":{\"key\":\"b\",\"value\":\"2\"}}\n{\"Rm\":{\"key\":\"a\"}}\n";
    let mut state = LogState::new(0);
    assert_eq!(state.replay_segment(0, log), Ok(()));
    assert_eq!(state.locate(&"a".to_string()), None);
    let loc = state.locate(&"b".to_string()).unwrap();
    assert_eq!((loc.gen, loc.pos, loc.len), (0, 34, 31));
    assert_eq!(state.uncompacted(), 2);
}

#[test]
fn sealed_segments_do_not_count_as_uncompacted() {
    let bytes = encode_record(&Record::Put { key: "a".to_string(), value: "1".to_string() });
    let mut state = LogState::new(3);
    assert_eq!(state.replay_segment(1, &bytes), Ok(()));
    assert_eq!(state.uncompacted(), 0);
    assert_eq!(state.replay_segment(3, &bytes), Ok(()));
    assert_eq!(state.uncompacted(), 1);
    assert_eq!(state.locate(&"a".to_string()).unwrap().gen, 3);
}

#[test]
fn read_value_checks_the_key() {
    let bytes = encode_record(&Record::Put { key: "a".to_string(), value: "1".to_string() });
    assert_eq!(read_value(&"a".to_string(), &bytes), Ok("1".to_string()));
    assert_eq!(read_value(&"b".to_string(), &bytes), Err(KvsError::Integrity));
    let rm = encode_record(&Record::Rm { key: "a".to_string() });
    assert_eq!(read_value(&"a".to_string(), &rm), Err(KvsError::Integrity));
    assert_eq!(read_value(&"a".to_string(), &bytes[1..]), Err(KvsError::Parse));
}

#[test]
fn needs_compaction_at_capacity() {
    let mut state = LogState::new(0);
    for i in 0..CAPACITY {
        assert!(!state.needs_compaction());
        state.commit_set(format!("k{}", i), i * 10, 10);
    }
    assert!(state.needs_compaction());
    assert_eq!(state.uncompacted(), CAPACITY);
}

#[test]
fn compact_packs_records_in_order() {
    let mut state = LogState::new(4);
    state.commit_set("a".to_string(), 100, 30);
    state.commit_set("b".to_string(), 0, 20);
    let plan = state.compact().unwrap();
    assert_eq!(plan.target_gen, 5);
    assert_eq!(state.current_gen(), 6);
    assert_eq!(plan.transfers.len(), 2);
    assert_eq!((plan.transfers[0].from.pos, plan.transfers[0].to.pos), (100, 0));
    assert_eq!((plan.transfers[1].from.pos, plan.transfers[1].to.pos), (0, 30));
    assert_eq!(state.locate(&"b".to_string()).unwrap().pos, 30);
}

#[test]
fn compact_refuses_oversized_segment() {
    let mut state = LogState::new(0);
    state.commit_set("a".to_string(), 0, u64::MAX);
    state.commit_set("b".to_string(), 0, 1);
    assert!(state.compact().is_none());
    assert_eq!(state.current_gen(), 0);
    assert_eq!(state.uncompacted(), 2);
}

#[test]
fn record_bytes_are_the_json_form() {
    let bytes = encode_record(&Record::Put { key: "a".to_string(), value: "1".to_string() });
    assert_eq!(bytes, b"{\"Set\":{\"key\":\"a\",\"value\":\"1\"}}".to_vec());
    let rm = encode_record(&Record::Rm { key: "a".to_string() });
    assert_eq!(rm, b"{\"Rm\":{\"key\":\"a\"}}".to_vec());
}

#[test]
fn records_round_trip_with_escapes() {
    let key = "q\"uote\\back\nslash \u{e9}\u{1F600}".to_string();
    let value = "\u{0}\t}}{\"".to_string();
    let bytes = encode_record(&Record::Put { key: key.clone(), value: value.clone() });
    match parse_record(&bytes, 0) {
        Some((Record::Put { key: k, value: v }, end)) => {
            assert_eq!(k, key);
            assert_eq!(v, value);
            assert_eq!(end, bytes.len());
        }
        other => panic!("unexpected {:?}", other),
    }
}

#[test]
fn begin_set_compacts_only_at_capacity() {
    let mut state = LogState::new(0);
    for i in 0..(CAPACITY - 1) {
        state.commit_set(format!("k{}", i), i * 10, 10);
    }
    let step = state.begin_set(&"a".to_string(), &"1".to_string()).unwrap();
    assert!(step.compaction.is_none());
    assert_eq!(step.record, b"{\"Set\":{\"key\":\"a\",\"value\":\"1\"}}".to_vec());
    state.commit_set("a".to_string(), 9990, 10);
    let step = state.begin_set(&"b".to_string(), &"2".to_string()).unwrap();
    let plan = step.compaction.unwrap();
    assert_eq!(plan.target_gen, 1);
    assert_eq!(plan.transfers.len(), CAPACITY as usize);
    assert_eq!(state.current_gen(), 2);
    assert_eq!(state.uncompacted(), 0);
}

#[test]
fn begin_set_fails_when_generations_run_out() {
    let mut state = LogState::new(u64::MAX - 1);
    for i in 0..CAPACITY {
        state.commit_set(format!("k{}", i), i, 1);
    }
    assert!(matches!(state.begin_set(&"a".to_string(), &"1".to_string()), Err(KvsError::Io)));
    assert_eq!(state.current_gen(), u64::MAX - 1);
    assert_eq!(state.uncompacted(), CAPACITY);
}

#[test]
fn begin_remove_gives_the_tombstone() {
    let mut state = LogState::new(0);
    state.commit_set("a".to_string(), 0, 31);
    assert_eq!(state.begin_remove(&"a".to_string()), Ok(b"{\"Rm\":{\"key\":\"a\"}}".to_vec()));
    assert_eq!(state.begin_remove(&"a".to_string()), Err(KvsError::KeyNotFound));
    assert_eq!(state.len(), 0);
}
