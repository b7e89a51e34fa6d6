use roar::i64_to_string;
use roar::parse_i64;
use roar::DataType;
use roar::DeSerializer;
use roar::FramingError;

#[test]
fn test_serialize_data() {
    let test_data = [
        ("$-1\r\n", vec![DataType::Null]),
        (
            "*1\r\n$4\r\nping\r\n",
            vec![DataType::Array(vec![DataType::BulkString(
                "ping".to_string(),
            )])],
        ),
        (
            "*2\r\n$4\r\necho\r\n$11\r\nhello world\r\n",
            vec![DataType::Array(vec![
                DataType::BulkString("echo".to_string()),
                DataType::BulkString("hello world".to_string()),
            ])],
        ),
        (
            "*2\r\n$3\r\nget\r\n$3\r\nkey\r\n",
            vec![DataType::Array(vec![
                DataType::BulkString("get".to_string()),
                DataType::BulkString("key".to_string()),
            ])],
        ),
        ("+OK\r\n", vec![DataType::SimpleString("OK".to_string())]),
        (
            "-Error message\r\n",
            vec![DataType::Error("Error message".to_string())],
        ),
        ("$0\r\n\r\n", vec![DataType::BulkString("".to_string())]),
        (
            "+hello world\r\n",
            vec![DataType::SimpleString("hello world".to_string())],
        ),
    ];

    for (input, expected) in test_data {
        let mut deser = DeSerializer::new(input);
        let data_types = deser.deserialize().unwrap();
        assert_eq!(data_types, expected);
    }
}

fn round_trips(v: DataType) {
    let wire = v.serialize();
    let mut deser = DeSerializer::new(wire.as_str());
    let back = deser.deserialize().unwrap();
    assert_eq!(back, vec![v]);
}

#[test]
fn decode_inverts_encode() {
    round_trips(DataType::SimpleString("PONG".to_string()));
    round_trips(DataType::Error("wrong".to_string()));
    round_trips(DataType::Integer(0));
    round_trips(DataType::Integer(-42));
    round_trips(DataType::Integer(i64::MAX));
    round_trips(DataType::Integer(i64::MIN));
    round_trips(DataType::BulkString("".to_string()));
    round_trips(DataType::BulkString("hello world".to_string()));
    round_trips(DataType::BulkString("with\r\ninside".to_string()));
    round_trips(DataType::Null);
    round_trips(DataType::Array(vec![
        DataType::BulkString("set".to_string()),
        DataType::Integer(7),
        DataType::Null,
        DataType::Array(vec![DataType::SimpleString("deep".to_string())]),
    ]));
}

#[test]
fn null_array_and_null_bulk_both_decode_to_null() {
    let mut deser = DeSerializer::new("*-1\r\n");
    assert_eq!(deser.deserialize().unwrap(), vec![DataType::Null]);
    let mut deser = DeSerializer::new("$-1\r\n");
    assert_eq!(deser.deserialize().unwrap(), vec![DataType::Null]);
    // the shared image: a null always encodes as a null bulk string
    assert_eq!(DataType::Null.serialize(), "$-1\r\n");
}

#[test]
fn serialize_exact_wire_text() {
    assert_eq!(
        DataType::SimpleString("OK".to_string()).serialize(),
        "+OK\r\n"
    );
    assert_eq!(
        DataType::Error("Error message".to_string()).serialize(),
        "-Error message\r\n"
    );
    assert_eq!(DataType::Integer(-42).serialize(), ":-42\r\n");
    assert_eq!(
        DataType::BulkString("hello".to_string()).serialize(),
        "$5\r\nhello\r\n"
    );
    assert_eq!(
        DataType::Array(vec![
            DataType::BulkString("a".to_string()),
            DataType::Integer(2)
        ])
        .serialize(),
        "*2\r\n$1\r\na\r\n:2\r\n"
    );
}

#[test]
fn each_framing_error_has_an_input() {
    let cases = [
        ("+abc", FramingError::UnexpectedEof),
        ("+abc\n", FramingError::BadTerminator),
        ("\r\n", FramingError::EmptyChunk),
        ("?boo\r\n", FramingError::InvalidMarker),
        (":twelve\r\n", FramingError::BadInteger),
        (":\r\n", FramingError::BadInteger),
        (":9223372036854775808\r\n", FramingError::BadInteger),
        ("$-2\r\n", FramingError::BadInteger),
        ("$10\r\nhi\r\n", FramingError::Truncated),
        ("*2\r\n+only one\r\n", FramingError::UnexpectedEof),
    ];
    for (input, expected) in cases {
        let mut deser = DeSerializer::new(input);
        assert_eq!(deser.deserialize(), Err(expected), "input {:?}", input);
    }
}

#[test]
fn bulk_lengths_count_bytes_of_utf8() {
    // e-acute is two bytes of UTF-8, one character
    assert_eq!(
        DataType::BulkString("\u{e9}".to_string()).serialize(),
        "$2\r\n\u{e9}\r\n"
    );
    let mut deser = DeSerializer::new("$2\r\n\u{e9}\r\n");
    assert_eq!(
        deser.deserialize().unwrap(),
        vec![DataType::BulkString("\u{e9}".to_string())]
    );
    // a four-byte character
    assert_eq!(
        DataType::BulkString("\u{1f600}".to_string()).serialize(),
        "$4\r\n\u{1f600}\r\n"
    );
    round_trips(DataType::BulkString("h\u{e9}llo".to_string()));
    round_trips(DataType::BulkString("\u{1f600}\u{e9}a".to_string()));
}

#[test]
fn a_bulk_length_that_splits_a_character_is_refused() {
    // one declared byte reaches into the middle of the two-byte e-acute
    let mut deser = DeSerializer::new("$1\r\n\u{e9}\r\n");
    assert_eq!(deser.deserialize(), Err(FramingError::InvalidText));
    // two declared bytes cover the e-acute alone, so the next character
    // must be the terminator
    let mut deser = DeSerializer::new("$2\r\n\u{e9}!\r\n");
    assert_eq!(deser.deserialize(), Err(FramingError::BadTerminator));
}

#[test]
fn bulk_string_keeps_declared_length_of_text() {
    // the declared length counts the bytes of the following chunk
    let mut deser = DeSerializer::new("$2\r\nab\r\n");
    assert_eq!(
        deser.deserialize().unwrap(),
        vec![DataType::BulkString("ab".to_string())]
    );
    // a wrong declared length misses the terminator
    let mut deser = DeSerializer::new("$1\r\nab\r\n");
    assert_eq!(deser.deserialize(), Err(FramingError::BadTerminator));
}

#[test]
fn several_values_decode_in_order() {
    let mut deser = DeSerializer::new("+one\r\n:2\r\n$5\r\nthree\r\n");
    assert_eq!(
        deser.deserialize().unwrap(),
        vec![
            DataType::SimpleString("one".to_string()),
            DataType::Integer(2),
            DataType::BulkString("three".to_string()),
        ]
    );
}

#[test]
fn integer_text_round_trips() {
    for n in [0i64, 1, -1, 42, -42, 1000, i64::MAX, i64::MIN] {
        let text = i64_to_string(n);
        assert_eq!(parse_i64(text.as_str()), Some(n));
    }
    assert_eq!(i64_to_string(i64::MAX), "9223372036854775807");
    assert_eq!(i64_to_string(i64::MIN), "-9223372036854775808");
    assert_eq!(i64_to_string(0), "0");
}

#[test]
fn parse_rejects_what_is_not_a_plain_decimal() {
    assert_eq!(parse_i64(""), None);
    assert_eq!(parse_i64("-"), None);
    assert_eq!(parse_i64("12a"), None);
    assert_eq!(parse_i64("+5"), None);
    assert_eq!(parse_i64(" 5"), None);
    assert_eq!(parse_i64("9223372036854775808"), None);
    assert_eq!(parse_i64("-9223372036854775809"), None);
    assert_eq!(parse_i64("007"), Some(7));
}

#[test]
fn inner_hands_out_the_text() {
    assert_eq!(DataType::SimpleString("abc".to_string()).inner().as_str(), "abc");
    assert_eq!(DataType::BulkString("xyz".to_string()).inner().as_str(), "xyz");
    assert_eq!(DataType::Error("oops".to_string()).inner().as_str(), "oops");
}
