use p4_analyzer::json_rpc::{
    decimal, read_msg_text, write_msg_text, DeserializeError, HeaderError, HeaderRead, ParseIntError, RequestId,
    SerializeError,
};

fn read_header(lines: &[&str]) -> HeaderRead {
    let mut size = None;
    for line in lines {
        match read_msg_text(line, size) {
            HeaderRead::Next(s) => size = s,
            other => return other,
        }
    }
    HeaderRead::Eof
}

#[test]
fn header_with_content_length() {
    match read_header(&["Content-Length: 12\r\n", "Content-Type: x\r\n", "\r\n"]) {
        HeaderRead::Body(n) => assert_eq!(n, 12),
        other => panic!("{:?}", other),
    }
    match read_header(&["Content-Length: +7\r\n", "Content-Length: 3\r\n", "\r\n"]) {
        HeaderRead::Body(n) => assert_eq!(n, 3),
        other => panic!("{:?}", other),
    }
}

#[test]
fn header_errors() {
    assert!(matches!(read_header(&[""]), HeaderRead::Eof));
    match read_header(&["Content-Length: 12\n"]) {
        HeaderRead::Error(HeaderError::Malformed(t)) => assert_eq!(t, "Content-Length: 12\n"),
        other => panic!("{:?}", other),
    }
    match read_header(&["Content-Length 12\r\n"]) {
        HeaderRead::Error(HeaderError::Malformed(t)) => assert_eq!(t, "Content-Length 12"),
        other => panic!("{:?}", other),
    }
    assert!(matches!(read_header(&["X: y\r\n", "\r\n"]), HeaderRead::Error(HeaderError::NoContentLength)));
    assert!(matches!(
        read_header(&["Content-Length: \r\n"]),
        HeaderRead::Error(HeaderError::InvalidLength(ParseIntError::Empty))
    ));
    assert!(matches!(
        read_header(&["Content-Length: 1x\r\n"]),
        HeaderRead::Error(HeaderError::InvalidLength(ParseIntError::InvalidDigit))
    ));
    assert!(matches!(
        read_header(&["Content-Length: +\r\n"]),
        HeaderRead::Error(HeaderError::InvalidLength(ParseIntError::InvalidDigit))
    ));
    assert!(matches!(
        read_header(&["Content-Length: 99999999999999999999999\r\n"]),
        HeaderRead::Error(HeaderError::InvalidLength(ParseIntError::PosOverflow))
    ));
}

#[test]
fn framing_a_message() {
    assert_eq!(write_msg_text("{}"), "Content-Length: 2\r\n\r\n{}".to_string());
    assert_eq!(write_msg_text("é"), "Content-Length: 2\r\n\r\né".to_string());
    assert_eq!(decimal(0), "0".to_string());
    assert_eq!(decimal(1234567890), "1234567890".to_string());
}

#[test]
fn request_ids_display() {
    assert_eq!(RequestId::from(92).to_string(), "92".to_string());
    assert_eq!(RequestId::from(-7).to_string(), "-7".to_string());
    assert_eq!(RequestId::from(i32::MIN).to_string(), "-2147483648".to_string());
    assert_eq!(RequestId::from("92".to_string()).to_string(), "\"92\"".to_string());
    assert_eq!(SerializeError.to_string(), "Failed to serialize object into JSON.".to_string());
    assert_eq!(DeserializeError.to_string(), "Failed to deserialize object from JSON.".to_string());
}

#[test]
fn written_headers_read_back() {
    for body in ["", "{}", "{\"jsonrpc\":\"2.0\",\"method\":\"exit\"}", "ünïcödé"] {
        let framed = write_msg_text(body);
        let header_end = framed.find("\r\n\r\n").unwrap() + 4;
        let lines: Vec<&str> = framed[..header_end].split_inclusive("\r\n").collect();
        match read_header(&lines) {
            HeaderRead::Body(n) => {
                assert_eq!(n, body.len());
                assert_eq!(&framed[header_end..], body);
            }
            other => panic!("{:?}", other),
        }
    }
}
