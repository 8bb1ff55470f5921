use kvs::enums::KvsEngineType;
use kvs::errors::{KvsError, MismatchEngine};
use kvs::kvs::KvStore;
use kvs::sled::SledStore;
use kvs::utilities::{
    check_engine_dir, check_pathbuf_is_not, get_log_files, get_log_name, get_sorted_kvs_log_files,
    parse_log_name, sled_log_files_exist, sorted_log_files,
};

fn names(v: &[&str]) -> Vec<String> {
    v.iter().map(|s| s.to_string()).collect()
}

#[test]
fn log_names_round_trip() {
    assert_eq!(get_log_name("kvs", 0), "0.kvs");
    assert_eq!(get_log_name("kvs", 1_700_000_000_123_456), "1700000000123456.kvs");
    assert_eq!(get_log_name("sled", u64::MAX), "18446744073709551615.sled");
    assert_eq!(parse_log_name("1700000000123456.kvs", "kvs"), Some(1_700_000_000_123_456));
    assert_eq!(parse_log_name("18446744073709551615.kvs", "kvs"), Some(u64::MAX));
    assert_eq!(parse_log_name("18446744073709551616.kvs", "kvs"), None);
    assert_eq!(parse_log_name("12a.kvs", "kvs"), None);
    assert_eq!(parse_log_name(".kvs", "kvs"), None);
    assert_eq!(parse_log_name("12.sled", "kvs"), None);
    assert_eq!(parse_log_name("12.kvslog", "kvs"), None);
}

#[test]
fn lists_and_sorts_segment_files() {
    let dir = names(&["30.kvs", "conf", "4.kvs", "x.kvs", "100.kvs", "7.sled", "notes.txt"]);
    assert_eq!(get_log_files("kvs", &dir), names(&["30.kvs", "4.kvs", "x.kvs", "100.kvs"]));
    let sorted: Vec<(u64, String)> = sorted_log_files("kvs", &dir).into_iter().map(|f| (f.id, f.name)).collect();
    assert_eq!(sorted, vec![(4, "4.kvs".to_string()), (30, "30.kvs".to_string()), (100, "100.kvs".to_string())]);
    let kvs_sorted: Vec<u64> = get_sorted_kvs_log_files(&dir).into_iter().map(|f| f.id).collect();
    assert_eq!(kvs_sorted, vec![4, 30, 100]);
}

#[test]
fn detects_sled_directory() {
    assert!(sled_log_files_exist(&names(&["conf", "db", "snap.0001"])));
    assert!(!sled_log_files_exist(&names(&["conf"])));
    assert!(!sled_log_files_exist(&names(&["1.kvs"])));
    assert!(check_pathbuf_is_not("db", "db"));
    assert!(!check_pathbuf_is_not("db2", "db"));
}

#[test]
fn engine_mismatch_is_refused() {
    let kvs_dir = names(&["1.kvs", "2.kvs"]);
    let sled_dir = names(&["conf", "db"]);
    assert!(check_engine_dir(KvsEngineType::KvStore, &kvs_dir).is_ok());
    assert!(check_engine_dir(KvsEngineType::Sled, &sled_dir).is_ok());
    assert!(matches!(
        check_engine_dir(KvsEngineType::KvStore, &sled_dir),
        Err(MismatchEngine(e, _)) if e == "kvs"
    ));
    match check_engine_dir(KvsEngineType::Sled, &kvs_dir) {
        Err(MismatchEngine(e, files)) => {
            assert_eq!(e, "sled");
            assert_eq!(files, kvs_dir);
        }
        Ok(()) => panic!("mismatch not detected"),
    }
    assert!(matches!(
        SledStore::open("/nonexistent/never/opened", &kvs_dir),
        Err(KvsError::Mismatch(_))
    ));
    assert!(KvStore::open(&Vec::new(), Vec::new(), 1).is_ok());
}

#[test]
fn kvs_open_refuses_sled_directory() {
    let sled_dir = names(&["conf", "db"]);
    assert!(matches!(KvStore::open(&sled_dir, Vec::new(), 1), Err(KvsError::Mismatch(_))));
    let other = names(&["conf", "1.kvs"]);
    assert!(KvStore::open(&other, Vec::new(), 1).is_ok());
}
