use kvs::catalogue::{
    latest_generation, log_file_name, parse_log_file_name, replay_order, stale_generations,
};
use kvs::config::{check_conf, conf_bytes};
use kvs::engine::{found_value, removal_outcome};
use kvs::protocol::{get_response, remove_response, set_response};
use kvs::{
    ConfDecision, EngineType, GetResponse, KvsEngine, KvsError, RemoveResponse, SetResponse,
    SledKvsEngine,
};

#[test]
fn log_file_names() {
    assert_eq!(log_file_name(0), b"0.log".to_vec());
    assert_eq!(log_file_name(1234), b"1234.log".to_vec());
    assert_eq!(log_file_name(u64::MAX), b"18446744073709551615.log".to_vec());
}

#[test]
fn parse_log_file_names() {
    assert_eq!(parse_log_file_name(b"12.log"), Some(12));
    assert_eq!(parse_log_file_name(b"007.log"), Some(7));
    assert_eq!(parse_log_file_name(b"18446744073709551615.log"), Some(u64::MAX));
    assert_eq!(parse_log_file_name(b"18446744073709551616.log"), None);
    assert_eq!(parse_log_file_name(b".log"), None);
    assert_eq!(parse_log_file_name(b"a.log"), None);
    assert_eq!(parse_log_file_name(b"12.log.bak"), None);
    assert_eq!(parse_log_file_name(b"conf"), None);
}

#[test]
fn log_file_name_round_trips() {
    for gen in [0u64, 9, 10, 99, 100, 123456789, u64::MAX] {
        assert_eq!(parse_log_file_name(&log_file_name(gen)), Some(gen));
    }
}

#[test]
fn latest_generation_picks_maximum() {
    assert_eq!(latest_generation(&[]), 0);
    assert_eq!(latest_generation(&[3, 9, 4]), 9);
    assert_eq!(latest_generation(&[0]), 0);
}

#[test]
fn stale_generations_are_below_target() {
    assert_eq!(stale_generations(&[4, 0, 7, 2, 5], 5), vec![4, 0, 2]);
    assert_eq!(stale_generations(&[5, 6], 5), Vec::<u64>::new());
}

#[test]
fn replay_order_ascends() {
    assert_eq!(replay_order(vec![5, 1, 3, 1]), vec![1, 1, 3, 5]);
    assert_eq!(replay_order(Vec::new()), Vec::<u64>::new());
}

#[test]
fn engine_names() {
    assert_eq!(EngineType::from_name("kvs"), Ok(EngineType::Kvs));
    assert_eq!(EngineType::from_name("SLED"), Ok(EngineType::Sled));
    assert_eq!(EngineType::from_name("Sled"), Ok(EngineType::Sled));
    assert_eq!(EngineType::from_name("btree"), Err(KvsError::Parse));
    assert_eq!(EngineType::from_lowercase_name(&"sled".to_string()), Ok(EngineType::Sled));
    assert_eq!(EngineType::from_lowercase_name(&"kvs".to_string()), Ok(EngineType::Kvs));
    assert_eq!(EngineType::from_lowercase_name(&"KVS".to_string()), Err(KvsError::Parse));
    assert_eq!(EngineType::Kvs.tag(), "Kvs");
    assert_eq!(EngineType::Sled.tag(), "Sled");
}

#[test]
fn conf_file_contents() {
    assert_eq!(conf_bytes(EngineType::Kvs), b"\"Kvs\"".to_vec());
    assert_eq!(conf_bytes(EngineType::Sled), b"\"Sled\"".to_vec());
}

#[test]
fn conf_guard_records_on_empty_file() {
    assert_eq!(check_conf(b"", EngineType::Kvs), Ok(ConfDecision::Record));
}

#[test]
fn conf_guard_keeps_same_engine() {
    assert_eq!(check_conf(&conf_bytes(EngineType::Kvs), EngineType::Kvs), Ok(ConfDecision::Keep));
    assert_eq!(check_conf(b" \"Sled\"\n", EngineType::Sled), Ok(ConfDecision::Keep));
}

#[test]
fn conf_guard_refuses_other_engine() {
    assert_eq!(
        check_conf(&conf_bytes(EngineType::Kvs), EngineType::Sled),
        Err(KvsError::ConfigMismatch)
    );
    assert_eq!(
        check_conf(&conf_bytes(EngineType::Sled), EngineType::Kvs),
        Err(KvsError::ConfigMismatch)
    );
}

#[test]
fn conf_guard_rejects_garbage() {
    assert_eq!(check_conf(b"\"Btree\"", EngineType::Kvs), Err(KvsError::Parse));
    assert_eq!(check_conf(b"Kvs", EngineType::Kvs), Err(KvsError::Parse));
    assert_eq!(check_conf(b"\"Kvs\" x", EngineType::Kvs), Err(KvsError::Parse));
}

#[test]
fn responses_follow_outcomes() {
    assert!(matches!(set_response(Ok(())), SetResponse::Done));
    match set_response(Err(KvsError::Io)) {
        SetResponse::Failed(m) => assert_eq!(m, "Storage failure"),
        SetResponse::Done => panic!("expected a failure"),
    }
    match get_response(Ok(Some("v".to_string()))) {
        GetResponse::Value(v) => assert_eq!(v, "v"),
        GetResponse::Failed(_) => panic!("expected a value"),
    }
    assert_eq!(get_response(Ok(None)).text(), "Key not found");
    assert_eq!(get_response(Err(KvsError::Integrity)).text(), "Log entry does not match its key");
    assert!(matches!(remove_response(Ok(())), RemoveResponse::Done));
    match remove_response(Err(KvsError::KeyNotFound)) {
        RemoveResponse::Failed(m) => assert_eq!(m, "Key not found"),
        RemoveResponse::Done => panic!("expected a failure"),
    }
}

#[test]
fn error_messages() {
    assert_eq!(KvsError::KeyNotFound.message(), "Key not found");
    assert_eq!(KvsError::Parse.message(), "Could not parse");
    assert_eq!(KvsError::ConfigMismatch.message(), "Invalid configuration");
}

#[test]
fn stored_bytes_become_values() {
    assert_eq!(found_value(None), Ok(None));
    assert_eq!(found_value(Some(b"caf\xc3\xa9".to_vec())), Ok(Some("caf\u{e9}".to_string())));
    assert_eq!(found_value(Some(vec![0xff, 0xfe])), Err(KvsError::Parse));
    assert_eq!(removal_outcome(&None), Err(KvsError::KeyNotFound));
    assert_eq!(removal_outcome(&Some(Vec::new())), Ok(()));
}

#[test]
fn sled_engine_set_get_remove() {
    let db = sled::Config::new().temporary(true).open().unwrap();
    let engine = SledKvsEngine::new(db);
    assert_eq!(engine.get("a".to_string()), Ok(None));
    assert_eq!(engine.set("a".to_string(), "1".to_string()), Ok(()));
    assert_eq!(engine.set("a".to_string(), "2".to_string()), Ok(()));
    assert_eq!(engine.get("a".to_string()), Ok(Some("2".to_string())));
    assert_eq!(engine.remove("a".to_string()), Ok(()));
    assert_eq!(engine.get("a".to_string()), Ok(None));
    assert_eq!(engine.remove("a".to_string()), Err(KvsError::KeyNotFound));
}
