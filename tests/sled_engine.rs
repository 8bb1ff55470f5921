use kvs::enums::KvsResponse;
use kvs::errors::KvsError;
use kvs::protocol::execute_command;
use kvs::sled::SledStore;
use kvs::traits::{Engine, KvsEngine};

fn temporary() -> SledStore {
    SledStore(sled::Config::new().temporary(true).open().unwrap())
}

#[test]
fn sled_engine_round_trip() {
    let mut e = temporary();
    assert_eq!(e.get("a".to_string()).unwrap(), None);
    e.set("a".to_string(), "1".to_string()).unwrap();
    assert_eq!(e.get("a".to_string()).unwrap(), Some("1".to_string()));
    e.set("a".to_string(), "2".to_string()).unwrap();
    assert_eq!(e.get("a".to_string()).unwrap(), Some("2".to_string()));
    e.remove("a".to_string()).unwrap();
    assert_eq!(e.get("a".to_string()).unwrap(), None);
    assert!(matches!(e.remove("a".to_string()), Err(KvsError::NotFound(_))));
}

#[test]
fn sled_engine_serves_requests() {
    let mut engine = Engine::Sled(temporary());
    assert!(matches!(execute_command(&mut engine, "set k v"), Ok(KvsResponse::Success)));
    assert!(matches!(execute_command(&mut engine, "get k"), Ok(KvsResponse::Message(v)) if v == "v"));
    assert!(matches!(execute_command(&mut engine, "rm k"), Ok(KvsResponse::Success)));
    assert!(matches!(execute_command(&mut engine, "rm k"), Ok(KvsResponse::BadNotFound)));
    assert!(matches!(execute_command(&mut engine, "get k"), Ok(KvsResponse::NotFound)));
}
