use dokono::protocol::{read_frame, read_message, write_frame, write_message, ProtocolError};
use serde_json::Value;

fn object(entries: Vec<(&str, Value)>) -> Value {
    let mut m = serde_json::Map::new();
    for (k, v) in entries {
        m.insert(k.to_string(), v);
    }
    Value::Object(m)
}

#[test]
fn round_trip_ascii() {
    let msg = object(vec![
        ("jsonrpc", Value::from("2.0")),
        ("method", Value::from("test")),
        ("params", object(vec![("a", Value::from(1))])),
    ]);
    let buf = write_message(&msg).unwrap();
    let (read, n) = read_message(&buf).unwrap().unwrap();
    assert_eq!(read, msg);
    assert_eq!(n, buf.len());
}

#[test]
fn content_length_uses_utf8_byte_length() {
    // Multibyte UTF-8 strings have different char and byte lengths; verify explicitly.
    let text = "こんにちは"; // 5 chars, 15 bytes (UTF-8)
    let msg = object(vec![("text", Value::from(text))]);
    let buf = write_message(&msg).unwrap();

    let body_bytes = serde_json::to_vec(&msg).unwrap();
    let expected_header = format!("Content-Length: {}", body_bytes.len());
    let written = String::from_utf8_lossy(&buf);
    assert!(
        written.contains(&expected_header),
        "expected header `{expected_header}` in:\n{written}"
    );

    // round-trip
    let (read, _) = read_message(&buf).unwrap().unwrap();
    assert_eq!(read, msg);
    assert_eq!(read["text"], text);
}

#[test]
fn eof_returns_none() {
    assert!(read_message(&[]).unwrap().is_none());
}

#[test]
fn multiple_messages_in_stream() {
    let m1 = object(vec![("id", Value::from(1))]);
    let m2 = object(vec![("id", Value::from(2))]);
    let mut buf = write_message(&m1).unwrap();
    buf.extend(write_message(&m2).unwrap());
    let (first, n) = read_message(&buf).unwrap().unwrap();
    assert_eq!(first, m1);
    let (second, m) = read_message(&buf[n..]).unwrap().unwrap();
    assert_eq!(second, m2);
    assert!(read_message(&buf[n + m..]).unwrap().is_none());
}

#[test]
fn ignores_unknown_headers() {
    let body = br#"{"k":1}"#;
    let mut data = Vec::new();
    data.extend_from_slice(b"Content-Type: application/vscode-jsonrpc; charset=utf-8\r\n");
    data.extend_from_slice(format!("Content-Length: {}\r\n\r\n", body.len()).as_bytes());
    data.extend_from_slice(body);
    let (read, _) = read_message(&data).unwrap().unwrap();
    assert_eq!(read, object(vec![("k", Value::from(1))]));
}

#[test]
fn faulty_messages_are_refused() {
    let cases: Vec<(&[u8], ProtocolError)> = vec![
        (b"Content-Length: 3\r\n", ProtocolError::UnexpectedEof),
        (b"\xff\xfe: 3\r\n\r\n", ProtocolError::HeaderNotUtf8),
        (
            b"Content-Length: many\r\n\r\n",
            ProtocolError::MalformedLength("Content-Length: many".to_string()),
        ),
        (b"Content-Type: x\r\n\r\n{}", ProtocolError::MissingLength),
        (b"Content-Length: 3\r\n\r\n{}", ProtocolError::ShortBody),
        (b"Content-Length: 2\r\n\r\n}{", ProtocolError::InvalidJson),
    ];
    for (input, expected) in cases {
        assert_eq!(read_message(input).unwrap_err(), expected);
    }
}

#[test]
fn frames_hold_any_bytes() {
    let framed = write_frame(b"abc");
    assert_eq!(framed, b"Content-Length: 3\r\n\r\nabc".to_vec());
    let mut stream = framed.clone();
    stream.extend_from_slice(b"rest");
    assert_eq!(read_frame(&stream).unwrap(), Some((b"abc".to_vec(), framed.len())));
}

#[test]
fn plain_values_come_back_as_they_were() {
    let values = vec![
        Value::Null,
        Value::from(true),
        Value::from(u64::MAX),
        Value::from(i64::MIN),
        Value::from("quote \" slash \\ tab \t line \n bell \u{7} é"),
        Value::Array(vec![Value::Array(vec![]), Value::from(0), object(vec![])]),
    ];
    for v in values {
        let buf = write_message(&v).unwrap();
        assert_eq!(read_message(&buf).unwrap().unwrap().0, v);
    }
}

#[test]
fn ordinary_messages_come_back_in_order() {
    let mut deep = Value::from("2.0 [[[ 1e5 }");
    for _ in 0..127 {
        deep = Value::Array(vec![deep]);
    }
    let messages = vec![
        object(vec![("jsonrpc", Value::from("2.0")), ("id", Value::from(1))]),
        deep,
        Value::from("a\\\"1e5"),
        Value::from("こんにちは"),
    ];
    let mut buf = Vec::new();
    for m in &messages {
        buf.extend(write_message(m).unwrap());
    }
    let mut at = 0;
    for m in &messages {
        let (read, n) = read_message(&buf[at..]).unwrap().unwrap();
        assert_eq!(&read, m);
        at += n;
    }
    assert!(read_message(&buf[at..]).unwrap().is_none());
}
