use resp_store::decode::{parse_frame, Decoder, Parsed, ReadError};
use resp_store::encode::{encode, encode_into};
use resp_store::frame::{try_prefix, Bool, Frame, InvalidBool, InvalidPrefix, Prefix};

fn b(s: &str) -> Vec<u8> {
    s.as_bytes().to_vec()
}

fn sample_frames() -> Vec<Frame> {
    let binary: Vec<u8> = (0..4096u32).map(|i| [0x00u8, 0x0D, 0x0A, 0xFF, b'x'][(i % 5) as usize]).collect();
    vec![
        Frame::String(b("OK")),
        Frame::String(vec![]),
        Frame::Error(b("ERR bad")),
        Frame::Integer(0),
        Frame::Integer(i64::MIN),
        Frame::Integer(i64::MAX),
        Frame::Bulk(None),
        Frame::Bulk(Some(vec![])),
        Frame::Bulk(Some(vec![0x00, 0x0D, 0x0A, 0xFF])),
        Frame::Bulk(Some(binary)),
        Frame::Array(None),
        Frame::Array(Some(vec![])),
        Frame::Null,
        Frame::Boolean(true),
        Frame::Boolean(false),
        Frame::Array(Some(vec![
            Frame::Integer(-7),
            Frame::Array(Some(vec![Frame::Null, Frame::Bulk(None), Frame::Array(None)])),
            Frame::Bulk(Some(vec![0x0D, 0x0A])),
            Frame::Array(Some((0..16).map(|i| Frame::Integer(i)).collect())),
        ])),
    ]
}

#[test]
fn round_trip_each_frame() {
    for f in sample_frames() {
        let bytes = encode(&f);
        match parse_frame(&bytes) {
            Ok(Parsed::Complete(g, n)) => {
                assert_eq!(f, g);
                assert_eq!(n, bytes.len());
            }
            other => panic!("{:?} did not decode: {:?}", f, other),
        }
    }
}

#[test]
fn null_bulk_null_array_and_null_are_distinct() {
    assert_eq!(b"$-1\r\n".to_vec(), encode(&Frame::Bulk(None)));
    assert_eq!(b"*-1\r\n".to_vec(), encode(&Frame::Array(None)));
    assert_eq!(b"_\r\n".to_vec(), encode(&Frame::Null));
    assert_eq!(b"$0\r\n\r\n".to_vec(), encode(&Frame::Bulk(Some(vec![]))));
    assert_eq!(b"*0\r\n".to_vec(), encode(&Frame::Array(Some(vec![]))));
}

#[test]
fn one_byte_per_read() {
    for f in sample_frames() {
        let bytes = encode(&f);
        let mut decoder = Decoder::new();
        for (i, byte) in bytes.iter().enumerate() {
            decoder.push_bytes(&[*byte]);
            let got = decoder.next_frame();
            if i + 1 < bytes.len() {
                assert_eq!(Ok(None), got);
            } else {
                assert_eq!(Ok(Some(f)), got);
                break;
            }
        }
    }
}

#[test]
fn split_in_two_reads() {
    let f = Frame::Array(Some(vec![Frame::Bulk(Some(b("hello"))), Frame::Integer(12)]));
    let bytes = encode(&f);
    for cut in 0..bytes.len() {
        let mut decoder = Decoder::new();
        decoder.push_bytes(&bytes[..cut]);
        assert_eq!(Ok(None), decoder.next_frame());
        decoder.push_bytes(&bytes[cut..]);
        assert_eq!(Ok(Some(Frame::Array(Some(vec![Frame::Bulk(Some(b("hello"))), Frame::Integer(12)])))), decoder.next_frame());
    }
}

#[test]
fn stream_of_frames_then_clean_end() {
    let mut bytes = Vec::new();
    for f in sample_frames() {
        encode_into(&f, &mut bytes);
    }
    let mut decoder = Decoder::new();
    decoder.push_bytes(&bytes);
    for f in sample_frames() {
        assert_eq!(Ok(Some(f)), decoder.next_frame());
    }
    assert_eq!(Ok(None), decoder.next_frame());
    assert_eq!(Ok(None), decoder.end_of_stream());
}

#[test]
fn end_inside_a_frame_is_an_error() {
    let bytes = encode(&Frame::Array(Some(vec![Frame::Null, Frame::Null])));
    let mut decoder = Decoder::new();
    decoder.push_bytes(&bytes[..bytes.len() - 1]);
    assert_eq!(Ok(None), decoder.next_frame());
    assert_eq!(Err(ReadError::UnexpectedEof), decoder.end_of_stream());
    let mut just_prefix = Decoder::new();
    just_prefix.push_bytes(b"*");
    assert_eq!(Ok(None), just_prefix.next_frame());
    assert_eq!(Err(ReadError::UnexpectedEof), just_prefix.end_of_stream());
}

#[test]
fn deep_nesting() {
    let depth = 10_000;
    let mut bytes = Vec::new();
    for _ in 0..depth {
        bytes.extend_from_slice(b"*1\r\n");
    }
    bytes.extend_from_slice(b"_\r\n");
    let frame = match parse_frame(&bytes) {
        Ok(Parsed::Complete(f, n)) => {
            assert_eq!(n, bytes.len());
            f
        }
        other => panic!("deep frame did not decode: {:?}", matches!(other, Ok(Parsed::Incomplete))),
    };
    assert!(encode(&frame) == bytes);
    // Take the nest apart level by level.
    let mut levels = 0;
    let mut current = frame;
    loop {
        match current {
            Frame::Array(Some(mut children)) => {
                assert_eq!(1, children.len());
                current = children.pop().unwrap();
                levels += 1;
            }
            other => {
                assert!(matches!(other, Frame::Null));
                break;
            }
        }
    }
    assert_eq!(depth, levels);
}

#[test]
fn nested_arrays_scenario() {
    let bytes = b"*1\r\n*2\r\n*0\r\n*0\r\n".to_vec();
    let expected = Frame::Array(Some(vec![Frame::Array(Some(vec![
        Frame::Array(Some(vec![])),
        Frame::Array(Some(vec![])),
    ]))]));
    match parse_frame(&bytes) {
        Ok(Parsed::Complete(f, n)) => {
            assert_eq!(n, bytes.len());
            assert_eq!(expected, f);
            assert_eq!(bytes, encode(&f));
        }
        _ => panic!("did not decode"),
    }
}

#[test]
fn error_invalid_prefix() {
    assert_eq!(Err(ReadError::InvalidPrefix), parse_frame(b"!oops\r\n"));
}

#[test]
fn error_missing_terminator() {
    assert_eq!(Err(ReadError::MissingTerminator), parse_frame(b"+abc\n"));
    assert_eq!(Err(ReadError::MissingTerminator), parse_frame(b"$3\r\nabcXY"));
    assert_eq!(Err(ReadError::MissingTerminator), parse_frame(b"_x\r\n"));
    assert_eq!(Err(ReadError::MissingTerminator), parse_frame(b"+a\rb\r\n"));
}

#[test]
fn error_parse_int() {
    assert_eq!(Err(ReadError::ParseInt), parse_frame(b":+5\r\n"));
    assert_eq!(Err(ReadError::ParseInt), parse_frame(b":12a\r\n"));
    assert_eq!(Err(ReadError::ParseInt), parse_frame(b":9223372036854775808\r\n"));
    assert_eq!(Err(ReadError::ParseInt), parse_frame(b"$-2\r\n"));
    assert_eq!(Err(ReadError::ParseInt), parse_frame(b"*x\r\n"));
    assert_eq!(Err(ReadError::ParseInt), parse_frame(b":\xff\r\n"));
}

#[test]
fn error_invalid_bool() {
    assert_eq!(Err(ReadError::InvalidBool), parse_frame(b"#x\r\n"));
    assert_eq!(Err(ReadError::InvalidBool), parse_frame(b"#tt\r\n"));
}

#[test]
fn integer_extremes_decode() {
    assert_eq!(Ok(Parsed::Complete(Frame::Integer(i64::MIN), 23)), parse_frame(b":-9223372036854775808\r\n"));
    assert_eq!(Ok(Parsed::Complete(Frame::Integer(i64::MAX), 22)), parse_frame(b":9223372036854775807\r\n"));
}

#[test]
fn prefix_table() {
    assert_eq!(Ok(Prefix::Array), try_prefix(b'*'));
    assert_eq!(Ok(Prefix::Boolean), try_prefix(b'#'));
    assert_eq!(Ok(Prefix::Bulk), try_prefix(b'$'));
    assert_eq!(Ok(Prefix::Error), try_prefix(b'-'));
    assert_eq!(Ok(Prefix::Integer), try_prefix(b':'));
    assert_eq!(Ok(Prefix::Null), try_prefix(b'_'));
    assert_eq!(Ok(Prefix::String), try_prefix(b'+'));
    assert_eq!(Err(InvalidPrefix), try_prefix(b'!'));
    assert_eq!(b'*', Frame::Array(None).prefix());
    assert_eq!(b'$', Frame::Bulk(None).prefix());
    assert_eq!(b'_', Frame::Null.prefix());
}

#[test]
fn accessors() {
    assert_eq!(Some(b("a")), Frame::String(b("a")).bytes());
    assert_eq!(Some(b("z")), Frame::Bulk(Some(b("z"))).bytes());
    assert_eq!(None, Frame::Bulk(None).bytes());
    assert_eq!(None, Frame::Error(b("e")).bytes());
    assert_eq!(Some(-3), Frame::Integer(-3).i64());
    assert_eq!(None, Frame::Null.i64());
}

#[test]
fn bool_payload() {
    assert_eq!(Ok(Bool(true)), Bool::try_from(&b"t"[..]));
    assert_eq!(Ok(Bool(false)), Bool::try_from(&b"f"[..]));
    assert_eq!(Err(InvalidBool), Bool::try_from(&b"true"[..]));
    assert_eq!(Err(InvalidBool), Bool::try_from(&b""[..]));
    assert_eq!(b't', u8::from(Bool::from(true)));
    assert_eq!(b'f', u8::from(Bool::from(false)));
    assert!(bool::from(Bool(true)));
    assert!(!bool::from(Bool::from(false)));
}
