use kvs::enums::{KvsCommand, KvsEngineType, KvsResponse};
use kvs::errors::{InvalidEngine, KvsError};
use kvs::kvs::KvStore;
use kvs::protocol::{
    execute_command, execute_line, get_response, parse_command, parse_until_whitespace,
    remove_response, set_response, split_words,
};
use kvs::traits::Engine;

#[test]
fn parses_requests() {
    assert!(matches!(parse_command("set k v"), Some(KvsCommand::Put(k, v)) if k == "k" && v == "v"));
    assert!(matches!(parse_command("set k  \t v "), Some(KvsCommand::Put(k, v)) if k == "k" && v == "v"));
    assert!(matches!(parse_command("get key"), Some(KvsCommand::Get(k)) if k == "key"));
    assert!(matches!(parse_command("rm key\n"), Some(KvsCommand::Remove(k)) if k == "key"));
    assert!(parse_command("set k").is_none());
    assert!(parse_command("set k v w").is_none());
    assert!(parse_command("get").is_none());
    assert!(parse_command("get a b").is_none());
    assert!(parse_command("del a").is_none());
    assert!(parse_command("  get a").is_none());
    assert!(parse_command("").is_none());
}

#[test]
fn splits_after_first_space() {
    assert_eq!(
        parse_until_whitespace("set a b"),
        Some(("set ".to_string(), "a b".to_string()))
    );
    assert_eq!(parse_until_whitespace("nospace"), None);
    assert_eq!(split_words(" a\tb\r\n c "), vec!["a".to_string(), "b".to_string(), "c".to_string()]);
    assert!(split_words("   ").is_empty());
}

#[test]
fn server_answers_requests() {
    let mut engine = Engine::Kvs(KvStore::open(&Vec::new(), Vec::new(), 1).unwrap());
    assert!(matches!(execute_command(&mut engine, "set a 1\n"), Ok(KvsResponse::Success)));
    assert!(matches!(execute_command(&mut engine, "get a"), Ok(KvsResponse::Message(v)) if v == "1"));
    assert!(matches!(execute_command(&mut engine, "rm a"), Ok(KvsResponse::Success)));
    assert!(matches!(execute_command(&mut engine, "get a"), Ok(KvsResponse::NotFound)));
    assert!(matches!(execute_command(&mut engine, "rm a"), Ok(KvsResponse::BadNotFound)));
    assert!(matches!(execute_command(&mut engine, "bogus"), Ok(KvsResponse::Success)));
}

#[test]
fn server_drops_trailing_unicode_whitespace() {
    let mut store = KvStore::open(&Vec::new(), Vec::new(), 1).unwrap();
    store.set("a".to_string(), "1".to_string()).unwrap();
    let mut engine = Engine::Kvs(store);
    assert!(matches!(execute_command(&mut engine, "get a \u{3000}"), Ok(KvsResponse::Message(v)) if v == "1"));
    assert!(matches!(execute_line(&mut engine, "get a \u{3000}"), Ok(KvsResponse::Success)));
}

#[test]
fn engine_names() {
    assert_eq!(KvsEngineType::try_from("kvs").unwrap(), KvsEngineType::KvStore);
    assert_eq!(KvsEngineType::try_from("sled").unwrap(), KvsEngineType::Sled);
    assert!(matches!(KvsEngineType::try_from("redis"), Err(InvalidEngine(n)) if n == "redis"));
    assert_eq!(KvsEngineType::KvStore.extension(), "kvs");
    assert_eq!(KvsEngineType::Sled.extension(), "sled");
}

#[test]
fn invalid_utf8_value_is_an_error() {
    assert!(matches!(kvs::sled::convert_ivec_to_string(vec![0xff, 0xfe]), Err(KvsError::InvalidUtf8)));
    assert_eq!(kvs::sled::convert_ivec_to_string("héllo".as_bytes().to_vec()).unwrap(), "héllo");
}

#[test]
fn responses_follow_engine_results() {
    assert!(matches!(set_response(Ok(())), Ok(KvsResponse::Success)));
    assert!(matches!(set_response(Err(KvsError::LogFull)), Err(KvsError::LogFull)));
    assert!(matches!(get_response(Ok(Some("v".to_string()))), Ok(KvsResponse::Message(m)) if m == "v"));
    assert!(matches!(get_response(Ok(None)), Ok(KvsResponse::NotFound)));
    assert!(matches!(get_response(Err(KvsError::InvalidUtf8)), Err(KvsError::InvalidUtf8)));
    assert!(matches!(remove_response(Ok(())), KvsResponse::Success));
    assert!(matches!(remove_response(Err(KvsError::LogFull)), KvsResponse::BadNotFound));
}
