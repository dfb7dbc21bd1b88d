use resp_store::decode::{Decoder, ReadError};
use resp_store::encode::encode;
use resp_store::frame::Frame;

/// Feeds all of `bytes` and reads one frame, treating the end of input as the
/// end of the stream.
fn read_frame(bytes: &[u8]) -> Result<Option<Frame>, ReadError> {
    let mut decoder = Decoder::new();
    decoder.push_bytes(bytes);
    match decoder.next_frame()? {
        Some(frame) => Ok(Some(frame)),
        None => decoder.end_of_stream(),
    }
}

fn b(s: &str) -> Vec<u8> {
    s.as_bytes().to_vec()
}

#[test]
fn invalid_bool() {
    assert_eq!(Err(ReadError::InvalidBool), read_frame(b"#invalid\r\n"));
}

#[test]
fn missing_terminator() {
    assert_eq!(Err(ReadError::UnexpectedEof), read_frame(b"+I forgot the trailing CRLF"));
}

#[test]
fn read_empty_buffer() {
    assert_eq!(Ok(None), read_frame(b""));
}

#[test]
fn read_string() {
    assert_eq!(Ok(Some(Frame::String(b("string")))), read_frame(b"+string\r\n"));
}

#[test]
fn write_string() {
    assert_eq!(b"+string\r\n".to_vec(), encode(&Frame::String(b("string"))));
}

#[test]
fn read_error() {
    assert_eq!(Ok(Some(Frame::Error(b("error")))), read_frame(b"-error\r\n"));
}

#[test]
fn write_error() {
    assert_eq!(b"-error\r\n".to_vec(), encode(&Frame::Error(b("error"))));
}

#[test]
fn read_integer() {
    assert_eq!(Ok(Some(Frame::Integer(42))), read_frame(b":42\r\n"));
}

#[test]
fn write_integer() {
    assert_eq!(b":42\r\n".to_vec(), encode(&Frame::Integer(42)));
}

#[test]
fn read_negative_integer() {
    assert_eq!(Ok(Some(Frame::Integer(-42))), read_frame(b":-42\r\n"));
}

#[test]
fn write_negative_integer() {
    assert_eq!(b":-42\r\n".to_vec(), encode(&Frame::Integer(-42)));
}

#[test]
fn read_bulk() {
    assert_eq!(Ok(Some(Frame::Bulk(Some(b("bulk"))))), read_frame(b"$4\r\nbulk\r\n"));
}

#[test]
fn write_bulk() {
    assert_eq!(b"$4\r\nbulk\r\n".to_vec(), encode(&Frame::Bulk(Some(b("bulk")))));
}

fn set_key_value() -> Frame {
    Frame::Array(Some(vec![
        Frame::Bulk(Some(b("set"))),
        Frame::Bulk(Some(b("key"))),
        Frame::Bulk(Some(b("value"))),
    ]))
}

#[test]
fn read_array() {
    assert_eq!(
        Ok(Some(set_key_value())),
        read_frame(b"*3\r\n$3\r\nset\r\n$3\r\nkey\r\n$5\r\nvalue\r\n")
    );
}

#[test]
fn write_array() {
    assert_eq!(
        b"*3\r\n$3\r\nset\r\n$3\r\nkey\r\n$5\r\nvalue\r\n".to_vec(),
        encode(&set_key_value())
    );
}

fn nested_arrays() -> Frame {
    Frame::Array(Some(vec![Frame::Array(Some(vec![
        Frame::Array(Some(vec![])),
        Frame::Array(Some(vec![])),
    ]))]))
}

#[test]
fn read_nested_arrays() {
    assert_eq!(Ok(Some(nested_arrays())), read_frame(b"*1\r\n*2\r\n*0\r\n*0\r\n"));
}

#[test]
fn write_nested_arrays() {
    assert_eq!(b"*1\r\n*2\r\n*0\r\n*0\r\n".to_vec(), encode(&nested_arrays()));
}

#[test]
fn read_null() {
    assert_eq!(Ok(Some(Frame::Null)), read_frame(b"_\r\n"));
}

#[test]
fn write_null() {
    assert_eq!(b"_\r\n".to_vec(), encode(&Frame::Null));
}

#[test]
fn read_true() {
    assert_eq!(Ok(Some(Frame::Boolean(true))), read_frame(b"#t\r\n"));
}

#[test]
fn write_true() {
    assert_eq!(b"#t\r\n".to_vec(), encode(&Frame::Boolean(true)));
}

#[test]
fn read_false() {
    assert_eq!(Ok(Some(Frame::Boolean(false))), read_frame(b"#f\r\n"));
}

#[test]
fn write_false() {
    assert_eq!(b"#f\r\n".to_vec(), encode(&Frame::Boolean(false)));
}

#[test]
fn multiple_frames() {
    let mut decoder = Decoder::new();
    decoder.push_bytes(b"+first frame\r\n+second frame\r\n");
    assert_eq!(Ok(Some(Frame::String(b("first frame")))), decoder.next_frame());
    assert_eq!(Ok(Some(Frame::String(b("second frame")))), decoder.next_frame());
}
