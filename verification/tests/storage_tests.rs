use kvlocal::log::{decode_record, encode_record, Operation};
use kvlocal::codec::DecodeStep;
use kvlocal::storage::{KVStorage, LogFile, LogName};
use kvlocal::{run, KvError};

fn fresh() -> KVStorage {
    KVStorage::new(Vec::new()).unwrap()
}

fn restart(e: &KVStorage) -> KVStorage {
    KVStorage::new(e.clone_logs()).unwrap()
}

#[test]
fn test_from_log_name() {
    let num: u64 = 11239840;
    let log_name = LogName::from(&num);
    assert_eq!(log_name.0, "11239840.log")
}

#[test]
fn test_is_log() {
    let x = "11239840.log";
    assert!(LogName::is_log(x));
}

#[test]
fn is_log_rejects_unrelated_names() {
    assert!(!LogName::is_log("foo.log"));
    assert!(!LogName::is_log("01.log"));
    assert!(!LogName::is_log("1.txt"));
    assert!(!LogName::is_log(".log"));
    assert!(!LogName::is_log("1log"));
    assert!(LogName::is_log("0.log"));
    assert!(LogName::is_log("2.log"));
}

#[test]
fn set_then_get_returns_value() {
    let mut e = fresh();
    e.insert("a".to_string(), "1".to_string());
    assert_eq!(e.get("a".to_string()).unwrap(), Some("1".to_string()));
    assert_eq!(e.get("b".to_string()).unwrap(), None);
}

#[test]
fn last_write_wins() {
    let mut e = fresh();
    e.insert("k".to_string(), "v1".to_string());
    e.insert("x".to_string(), "other".to_string());
    e.insert("k".to_string(), "v2".to_string());
    e.insert("k".to_string(), "v3".to_string());
    assert_eq!(e.get("k".to_string()).unwrap(), Some("v3".to_string()));
    assert_eq!(e.get("x".to_string()).unwrap(), Some("other".to_string()));
}

#[test]
fn remove_semantics() {
    let mut e = fresh();
    e.insert("k".to_string(), "v".to_string());
    assert!(e.delete("k".to_string()).is_ok());
    assert_eq!(e.get("k".to_string()).unwrap(), None);
    match e.delete("k".to_string()) {
        Err(KvError::KeyNotFound(k)) => assert_eq!(k, "k"),
        other => panic!("expected KeyNotFound, got {:?}", other.map(|_| ())),
    }
}

#[test]
fn remove_of_absent_key_is_key_not_found() {
    let mut e = fresh();
    assert!(matches!(
        e.delete("ghost".to_string()),
        Err(KvError::KeyNotFound(_))
    ));
    assert_eq!(e.get("ghost".to_string()).unwrap(), None);
}

#[test]
fn key_isolation() {
    let mut e = fresh();
    e.insert("a".to_string(), "1".to_string());
    e.insert("b".to_string(), "2".to_string());
    e.delete("a".to_string()).unwrap();
    e.insert("c".to_string(), "3".to_string());
    assert_eq!(e.get("b".to_string()).unwrap(), Some("2".to_string()));
    assert_eq!(e.get("a".to_string()).unwrap(), None);
    assert_eq!(e.get("c".to_string()).unwrap(), Some("3".to_string()));
}

#[test]
fn durability_across_restart() {
    let mut e = fresh();
    e.insert("a".to_string(), "1".to_string());
    e.insert("b".to_string(), "2".to_string());
    e.insert("a".to_string(), "3".to_string());
    e.delete("b".to_string()).unwrap();
    let mut e2 = restart(&e);
    assert_eq!(e2.get("a".to_string()).unwrap(), Some("3".to_string()));
    assert_eq!(e2.get("b".to_string()).unwrap(), None);
}

#[test]
fn generation_monotonic_across_restart() {
    let e = fresh();
    assert_eq!(e.current_generation(), 1);
    let e2 = restart(&e);
    assert_eq!(e2.current_generation(), 2);
    let e3 = restart(&e2);
    assert_eq!(e3.current_generation(), 3);
    for lf in e3.clone_logs() {
        assert!(lf.gen <= 3);
    }
}

#[test]
fn crash_recovery_scenario() {
    let mut e = fresh();
    e.insert("a".to_string(), "1".to_string());
    e.insert("b".to_string(), "2".to_string());
    e.delete("a".to_string()).unwrap();
    let logs_before = e.clone_logs();
    let n_before = logs_before.len();
    let mut e2 = KVStorage::new(logs_before).unwrap();
    assert_eq!(e2.get("a".to_string()).unwrap(), None);
    assert_eq!(e2.get("b".to_string()).unwrap(), Some("2".to_string()));
    let logs_after = e2.clone_logs();
    assert_eq!(logs_after.len(), n_before + 1);
    assert!(e2.current_generation() > e.current_generation());
}

#[test]
fn empty_key_and_value_round_trip() {
    let mut e = fresh();
    e.insert("".to_string(), "".to_string());
    assert_eq!(e.get("".to_string()).unwrap(), Some("".to_string()));
    let mut e2 = restart(&e);
    assert_eq!(e2.get("".to_string()).unwrap(), Some("".to_string()));
}

#[test]
fn control_characters_and_multibyte_round_trip() {
    let key = "k\u{0001}\n\t".to_string();
    let value = "h\u{00e9}llo \u{2192} \u{4e16}\u{754c}".to_string();
    let mut e = fresh();
    e.insert(key.clone(), value.clone());
    assert_eq!(e.get(key.clone()).unwrap(), Some(value.clone()));
    let mut e2 = restart(&e);
    assert_eq!(e2.get(key).unwrap(), Some(value));
}

#[test]
fn large_value_round_trip_and_restart() {
    let value = "x".repeat(1 << 20);
    let mut e = fresh();
    e.insert("big".to_string(), value.clone());
    assert_eq!(e.get("big".to_string()).unwrap(), Some(value.clone()));
    let mut e2 = restart(&e);
    assert_eq!(e2.get("big".to_string()).unwrap(), Some(value));
}

#[test]
fn sorted_generations_ignores_unrelated_files() {
    let names = vec![
        "foo.log".to_string(),
        "01.log".to_string(),
        "2.log".to_string(),
        "notes.txt".to_string(),
        "1.log".to_string(),
        "10.log".to_string(),
    ];
    let gens = KVStorage::sorted_generations(&names).unwrap();
    assert_eq!(gens, vec![1, 2, 10]);
}

#[test]
fn sorted_generations_rejects_oversized_generation() {
    let names = vec!["99999999999999999999999999.log".to_string()];
    assert!(matches!(
        KVStorage::sorted_generations(&names),
        Err(KvError::Config)
    ));
}

#[test]
fn startup_rejects_malformed_log() {
    let files = vec![LogFile { gen: 1, data: vec![9u8, 9, 9] }];
    assert!(matches!(KVStorage::new(files), Err(KvError::Codec)));
}

#[test]
fn startup_rejects_unsorted_generations() {
    let files = vec![
        LogFile { gen: 2, data: Vec::new() },
        LogFile { gen: 1, data: Vec::new() },
    ];
    assert!(matches!(KVStorage::new(files), Err(KvError::Config)));
}

#[test]
fn run_reports_recovery_outcome() {
    assert!(run(Vec::new()).is_ok());
    assert!(run(vec![LogFile { gen: 1, data: vec![255u8] }]).is_err());
}

#[test]
fn record_codec_round_trip() {
    let op = Operation::Put("k\u{4e16}".to_string(), "v\u{0000}v".to_string());
    let bytes = encode_record(&op);
    match decode_record(&bytes, 0) {
        DecodeStep::Done(got, end) => {
            assert_eq!(got, op);
            assert_eq!(end, bytes.len());
        }
        _ => panic!("record did not decode"),
    }
    let rm = Operation::Rm("gone".to_string());
    let rmb = encode_record(&rm);
    match decode_record(&rmb, 0) {
        DecodeStep::Done(got, end) => {
            assert_eq!(got, rm);
            assert_eq!(end, rmb.len());
        }
        _ => panic!("record did not decode"),
    }
}

#[test]
fn record_codec_rejects_junk_and_waits_for_more() {
    let junk = vec![77u8, 0, 0];
    assert!(matches!(decode_record(&junk, 0), DecodeStep::Invalid));
    let op = Operation::Put("k".to_string(), "v".to_string());
    let bytes = encode_record(&op);
    let cut = bytes[..bytes.len() - 1].to_vec();
    assert!(matches!(decode_record(&cut, 0), DecodeStep::Incomplete));
    assert!(matches!(decode_record(&bytes, bytes.len()), DecodeStep::Incomplete));
}

#[test]
fn key_not_found_message_names_the_key() {
    let e = KvError::KeyNotFound("ghost".to_string());
    assert_eq!(e.message(), "KeyNotFound: ghost");
}

#[test]
fn active_suffix_returns_appended_bytes() {
    let mut e = fresh();
    let before = e.active_len();
    let rec = e.insert("a".to_string(), "1".to_string());
    assert_eq!(e.active_suffix(before), rec);
    assert_eq!(e.active_len(), before + rec.len());
    let before_rm = e.active_len();
    let rm_rec = e.delete("a".to_string()).unwrap();
    assert_eq!(e.active_suffix(before_rm), rm_rec);
    let len_now = e.active_len();
    assert!(e.delete("a".to_string()).is_err());
    assert_eq!(e.active_len(), len_now);
}
