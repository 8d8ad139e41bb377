use kvs::resp::encode_ping;
use kvs::resp::Deserializer;
use kvs::resp::Serializer;
use kvs::ErrorKind;

#[test]
fn test_build() {
    println!("It works!");
}

#[test]
fn integers_render_as_integer_frames() {
    let mut ser = Serializer::new();
    ser.serialize_u64(42);
    assert_eq!(ser.into_output(), ":42\r\n".as_bytes().to_vec());

    let mut ser = Serializer::new();
    ser.serialize_bool(true);
    ser.serialize_bool(false);
    assert_eq!(ser.into_output(), ":1\r\n:0\r\n".as_bytes().to_vec());

    let mut ser = Serializer::new();
    ser.serialize_i32(7);
    ser.serialize_u8(255);
    assert_eq!(ser.into_output(), ":7\r\n:255\r\n".as_bytes().to_vec());
}

#[test]
fn strings_render_as_bulk_strings() {
    let mut ser = Serializer::new();
    ser.serialize_str("foo");
    assert_eq!(ser.into_output(), "$3\r\nfoo\r\n".as_bytes().to_vec());

    let mut ser = Serializer::new();
    ser.serialize_str("");
    assert_eq!(ser.into_output(), "$0\r\n\r\n".as_bytes().to_vec());
}

#[test]
fn bulk_string_length_counts_bytes_not_characters() {
    let mut ser = Serializer::new();
    ser.serialize_str("\u{00e9}");
    assert_eq!(ser.into_output(), "$2\r\n\u{00e9}\r\n".as_bytes().to_vec());
}

#[test]
fn absence_renders_as_null_bulk_string() {
    let mut ser = Serializer::new();
    ser.serialize_none();
    ser.serialize_unit();
    assert_eq!(ser.into_output(), "$-1\r\n$-1\r\n".as_bytes().to_vec());
}

#[test]
fn ping_encodes_as_an_array_of_bulk_strings() {
    assert_eq!(encode_ping(None), "*1\r\n$4\r\nPING\r\n".as_bytes().to_vec());
    assert_eq!(
        encode_ping(Some("hello")),
        "*2\r\n$4\r\nPING\r\n$5\r\nhello\r\n".as_bytes().to_vec()
    );
}

#[test]
fn integers_parse_back() {
    let input = ":123\r\n".as_bytes();
    let mut de = Deserializer::new(input);
    assert_eq!(de.parse_integer().unwrap(), 123);
}

#[test]
fn bulk_strings_parse_back() {
    let input = "$5\r\nhello\r\n".as_bytes();
    let mut de = Deserializer::new(input);
    assert_eq!(de.parse_bulk_string().unwrap(), "hello".to_string());
}

#[test]
fn commands_parse_as_string_arrays() {
    let input = "*2\r\n$4\r\nPING\r\n$2\r\nhi\r\n".as_bytes();
    let mut de = Deserializer::new(input);
    let items = de.parse_command().unwrap();
    assert_eq!(items, vec!["PING".to_string(), "hi".to_string()]);
}

#[test]
fn serialized_ping_parses_back() {
    let frame = encode_ping(Some("msg"));
    let mut de = Deserializer::new(&frame);
    let items = de.parse_command().unwrap();
    assert_eq!(items, vec!["PING".to_string(), "msg".to_string()]);
}

#[test]
fn malformed_frames_are_rejected() {
    let mut de = Deserializer::new("x123\r\n".as_bytes());
    assert_eq!(de.parse_integer().unwrap_err().kind(), ErrorKind::InvalidNetworkMessage);

    let mut de = Deserializer::new(":12".as_bytes());
    assert_eq!(de.parse_integer().unwrap_err().kind(), ErrorKind::InvalidNetworkMessage);

    let mut de = Deserializer::new("$5\r\nhel\r\n".as_bytes());
    assert_eq!(de.parse_bulk_string().unwrap_err().kind(), ErrorKind::InvalidNetworkMessage);

    let mut de = Deserializer::new("*1\r\n:1\r\n".as_bytes());
    assert_eq!(de.parse_command().unwrap_err().kind(), ErrorKind::InvalidNetworkMessage);
}

#[test]
fn oversized_counts_are_rejected() {
    let mut de = Deserializer::new(":99999999999999999999999\r\n".as_bytes());
    assert_eq!(de.parse_integer().unwrap_err().kind(), ErrorKind::InvalidNetworkMessage);
}

#[test]
fn frames_parse_in_sequence() {
    let input = ":1\r\n$2\r\nok\r\n".as_bytes();
    let mut de = Deserializer::new(input);
    assert_eq!(de.parse_integer().unwrap(), 1);
    assert_eq!(de.parse_bulk_string().unwrap(), "ok".to_string());
}
