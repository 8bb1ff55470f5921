use kvs::buffer::{write_command, BufReaderWithPos, BufWriterWithPos};
use kvs::codec::{decode_command, encode_command, TAG_PUT, TAG_REMOVE};
use kvs::enums::WriteCommand;

#[test]
fn put_record_layout() {
    let bytes = encode_command(&WriteCommand::Put("a".to_string(), "1".to_string()));
    let mut expected = vec![TAG_PUT, 1, 0, 0, 0, 0, 0, 0, 0, b'a', 1, 0, 0, 0, 0, 0, 0, 0, b'1'];
    assert_eq!(bytes, expected);
    expected.clear();
    let rm = encode_command(&WriteCommand::Remove("key".to_string()));
    assert_eq!(rm, vec![TAG_REMOVE, 3, 0, 0, 0, 0, 0, 0, 0, b'k', b'e', b'y']);
}

#[test]
fn decode_reads_back_records_in_sequence() {
    let mut log = encode_command(&WriteCommand::Put("ключ".to_string(), "v".to_string()));
    let first_end = log.len();
    log.extend(encode_command(&WriteCommand::Remove("x".to_string())));
    match decode_command(&log, 0) {
        Some((WriteCommand::Put(k, v), end)) => {
            assert_eq!(k, "ключ");
            assert_eq!(v, "v");
            assert_eq!(end, first_end);
        }
        other => panic!("unexpected {:?}", other),
    }
    match decode_command(&log, first_end) {
        Some((WriteCommand::Remove(k), end)) => {
            assert_eq!(k, "x");
            assert_eq!(end, log.len());
        }
        other => panic!("unexpected {:?}", other),
    }
    assert!(decode_command(&log, log.len()).is_none());
}

#[test]
fn decode_rejects_truncated_and_invalid() {
    let full = encode_command(&WriteCommand::Put("key".to_string(), "value".to_string()));
    for cut in 0..full.len() {
        assert!(decode_command(&full[..cut], 0).is_none());
    }
    let bad_utf8 = vec![TAG_REMOVE, 1, 0, 0, 0, 0, 0, 0, 0, 0xff];
    assert!(decode_command(&bad_utf8, 0).is_none());
    let huge_len = vec![TAG_REMOVE, 0xff, 0xff, 0xff, 0xff, 0xff, 0xff, 0xff, 0xff, b'a'];
    assert!(decode_command(&huge_len, 0).is_none());
    assert!(decode_command(&[7u8], 0).is_none());
}

#[test]
fn writer_reports_offsets() {
    let mut w = BufWriterWithPos::new(vec![1, 2, 3]);
    assert_eq!(w.pos(), 3);
    assert_eq!(w.write(&[9, 9]), 2);
    assert_eq!(w.pos(), 5);
    let (begin, end) = write_command(&mut w, &WriteCommand::Remove("k".to_string()));
    assert_eq!((begin, end), (5, 15));
    assert_eq!(w.get_ref().len(), 15);
}

#[test]
fn reader_moves_past_each_record() {
    let mut log = encode_command(&WriteCommand::Put("a".to_string(), "b".to_string()));
    log.extend(encode_command(&WriteCommand::Remove("a".to_string())));
    let mut r = BufReaderWithPos::new(&log, 0);
    assert!(matches!(r.read_command(), Some(WriteCommand::Put(_, _))));
    assert_eq!(r.pos(), 19);
    assert!(matches!(r.read_command(), Some(WriteCommand::Remove(_))));
    assert_eq!(r.pos(), log.len());
    assert!(r.read_command().is_none());
    assert_eq!(r.pos(), log.len());
    assert_eq!(r.seek(19), 19);
    assert!(matches!(r.read_command(), Some(WriteCommand::Remove(_))));
}
