use kvs::codec::Command;
use kvs::codec::Decoded;
use kvs::codec::decode_command;
use kvs::codec::encode_command;
use kvs::codec::REMOVE_TAG;
use kvs::codec::SET_TAG;

#[test]
fn put_record_round_trips() {
    let cmd = Command::Put { key: "alpha".to_string(), value: "beta".to_string() };
    let enc = encode_command(&cmd);
    match decode_command(&enc, 0) {
        Decoded::Record(back, end) => {
            assert_eq!(back, cmd);
            assert_eq!(end, enc.len());
        }
        _ => panic!("whole record expected"),
    }
}

#[test]
fn remove_record_round_trips() {
    let cmd = Command::Remove { key: "alpha".to_string() };
    let enc = encode_command(&cmd);
    match decode_command(&enc, 0) {
        Decoded::Record(back, end) => {
            assert_eq!(back, cmd);
            assert_eq!(end, enc.len());
        }
        _ => panic!("whole record expected"),
    }
}

#[test]
fn record_layout_is_tag_then_length() {
    let cmd = Command::Put { key: "ab".to_string(), value: "c".to_string() };
    let enc = encode_command(&cmd);
    // tag, key length in little-endian, key bytes
    assert_eq!(enc[0], SET_TAG);
    assert_eq!(&enc[1..9], &[2, 0, 0, 0, 0, 0, 0, 0]);
    assert_eq!(&enc[9..11], "ab".as_bytes());
    assert_eq!(&enc[11..19], &[1, 0, 0, 0, 0, 0, 0, 0]);
    assert_eq!(&enc[19..20], "c".as_bytes());
    assert_eq!(enc.len(), 20);

    let rm = encode_command(&Command::Remove { key: "k".to_string() });
    assert_eq!(rm[0], REMOVE_TAG);
    assert_eq!(rm.len(), 10);
}

#[test]
fn decode_stops_cleanly_at_end() {
    let enc = encode_command(&Command::Remove { key: "k".to_string() });
    assert!(matches!(decode_command(&enc, enc.len()), Decoded::End));
}

#[test]
fn decode_reports_partial_record_as_truncated() {
    let enc = encode_command(&Command::Put { key: "key".to_string(), value: "val".to_string() });
    for cut in 1..enc.len() {
        let partial = enc[..cut].to_vec();
        assert!(matches!(decode_command(&partial, 0), Decoded::Truncated));
    }
}

#[test]
fn decode_rejects_unknown_tag() {
    let data = vec![7u8, 0, 0, 0, 0, 0, 0, 0, 0];
    assert!(matches!(decode_command(&data, 0), Decoded::Corrupt));
}

#[test]
fn decode_rejects_invalid_utf8_field() {
    let mut enc = encode_command(&Command::Remove { key: "ab".to_string() });
    // stamp an invalid UTF-8 byte into the key
    enc[9] = 0xff;
    assert!(matches!(decode_command(&enc, 0), Decoded::Corrupt));
}

#[test]
fn decode_consumes_records_in_sequence() {
    let a = Command::Put { key: "a".to_string(), value: "1".to_string() };
    let b = Command::Remove { key: "a".to_string() };
    let mut data = encode_command(&a);
    data.extend_from_slice(&encode_command(&b));
    let (first, mid) = match decode_command(&data, 0) {
        Decoded::Record(cmd, end) => (cmd, end),
        _ => panic!("first record expected"),
    };
    assert_eq!(first, a);
    let (second, end) = match decode_command(&data, mid) {
        Decoded::Record(cmd, end) => (cmd, end),
        _ => panic!("second record expected"),
    };
    assert_eq!(second, b);
    assert!(matches!(decode_command(&data, end), Decoded::End));
}

#[test]
fn empty_strings_round_trip() {
    let cmd = Command::Put { key: String::new(), value: String::new() };
    let enc = encode_command(&cmd);
    match decode_command(&enc, 0) {
        Decoded::Record(back, end) => {
            assert_eq!(back, cmd);
            assert_eq!(end, enc.len());
        }
        _ => panic!("whole record expected"),
    }
}

#[test]
fn non_ascii_strings_round_trip() {
    let cmd = Command::Put { key: "schl\u{00fc}ssel".to_string(), value: "wert\u{2713}".to_string() };
    let enc = encode_command(&cmd);
    match decode_command(&enc, 0) {
        Decoded::Record(back, end) => {
            assert_eq!(back, cmd);
            assert_eq!(end, enc.len());
        }
        _ => panic!("whole record expected"),
    }
}
