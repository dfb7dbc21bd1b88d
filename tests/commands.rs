use resp_store::command::{Command, Error};
use resp_store::db::{respond, Db};
use resp_store::decode::{Decoder, ReadError};
use resp_store::session::{step, Action};
use resp_store::encode::encode;
use resp_store::frame::Frame;

fn b(s: &str) -> Vec<u8> {
    s.as_bytes().to_vec()
}

fn request(words: &[&str]) -> Frame {
    Frame::Array(Some(words.iter().map(|w| Frame::Bulk(Some(b(w)))).collect()))
}

/// Decodes `input` as one request, runs it at `now_ms`, and returns the reply's bytes.
fn exchange(db: &mut Db, input: &[u8], now_ms: u64) -> Vec<u8> {
    let mut decoder = Decoder::new();
    decoder.push_bytes(input);
    let frame = decoder.next_frame().unwrap().unwrap();
    let reply = respond(db, &frame, now_ms).unwrap();
    encode(&reply)
}

#[test]
fn scenario_ping() {
    let mut db = Db::new();
    assert_eq!(b"$4\r\nPONG\r\n".to_vec(), exchange(&mut db, b"*1\r\n$4\r\nPING\r\n", 0));
}

#[test]
fn scenario_echo() {
    let mut db = Db::new();
    assert_eq!(b"$5\r\nhello\r\n".to_vec(), exchange(&mut db, b"*2\r\n$4\r\nECHO\r\n$5\r\nhello\r\n", 0));
}

#[test]
fn scenario_set_then_get() {
    let mut db = Db::new();
    assert_eq!(b"$2\r\nOK\r\n".to_vec(), exchange(&mut db, b"*3\r\n$3\r\nSET\r\n$1\r\nk\r\n$1\r\nv\r\n", 0));
    assert_eq!(b"$1\r\nv\r\n".to_vec(), exchange(&mut db, b"*2\r\n$3\r\nGET\r\n$1\r\nk\r\n", 1));
}

#[test]
fn scenario_get_missing() {
    let mut db = Db::new();
    assert_eq!(b"$-1\r\n".to_vec(), exchange(&mut db, b"*2\r\n$3\r\nGET\r\n$7\r\nmissing\r\n", 0));
}

#[test]
fn scenario_expiry() {
    let mut db = Db::new();
    let t0 = 1_000;
    assert_eq!(
        b"$2\r\nOK\r\n".to_vec(),
        exchange(&mut db, b"*5\r\n$3\r\nSET\r\n$1\r\nk\r\n$1\r\nv\r\n$2\r\nPX\r\n$2\r\n10\r\n", t0)
    );
    assert_eq!(b"$1\r\nv\r\n".to_vec(), exchange(&mut db, b"*2\r\n$3\r\nGET\r\n$1\r\nk\r\n", t0 + 9));
    assert_eq!(b"$-1\r\n".to_vec(), exchange(&mut db, b"*2\r\n$3\r\nGET\r\n$1\r\nk\r\n", t0 + 11));
}

#[test]
fn set_overwrites() {
    let mut db = Db::new();
    respond(&mut db, &request(&["SET", "k", "v"]), 0).unwrap();
    respond(&mut db, &request(&["SET", "k", "w"]), 0).unwrap();
    assert_eq!(Ok(Frame::Bulk(Some(b("w")))), respond(&mut db, &request(&["GET", "k"]), 0));
}

#[test]
fn ex_is_in_seconds() {
    let mut db = Db::new();
    respond(&mut db, &request(&["set", "k", "v", "ex", "2"]), 0).unwrap();
    assert_eq!(Ok(Frame::Bulk(Some(b("v")))), respond(&mut db, &request(&["get", "k"]), 1_999));
    assert_eq!(Ok(Frame::Bulk(None)), respond(&mut db, &request(&["get", "k"]), 2_000));
}

#[test]
fn many_clients_distinct_keys() {
    let mut db = Db::new();
    for i in 0..50 {
        let k = format!("key{}", i);
        let v = format!("value{}", i);
        respond(&mut db, &request(&["SET", &k, &v]), 0).unwrap();
    }
    for i in (0..50).rev() {
        let k = format!("key{}", i);
        let v = format!("value{}", i);
        assert_eq!(Ok(Frame::Bulk(Some(b(&v)))), respond(&mut db, &request(&["GET", &k]), 0));
    }
}

#[test]
fn command_parsing() {
    assert_eq!(Ok(Command::Ping), Command::try_from_frame(&request(&["pInG"]), 0));
    assert_eq!(Ok(Command::Echo(b("hi"))), Command::try_from_frame(&request(&["echo", "hi"]), 0));
    assert_eq!(Ok(Command::Get(b("k"))), Command::try_from_frame(&request(&["GET", "k"]), 0));
    assert_eq!(
        Ok(Command::SetValue(b("k"), b("v"), Some(5_100))),
        Command::try_from_frame(&request(&["SET", "k", "v", "PX", "100"]), 5_000)
    );
    assert_eq!(
        Ok(Command::SetValue(b("k"), b("v"), Some(u64::MAX))),
        Command::try_from_frame(&request(&["SET", "k", "v", "EX", "18446744073709551615"]), 5)
    );
    assert!(Command::try_from_frame(&request(&["SET", "k", "v"]), 0).unwrap().is_write());
    assert!(!Command::try_from_frame(&request(&["GET", "k"]), 0).unwrap().is_write());
}

#[test]
fn command_errors() {
    assert_eq!(Err(Error::NotAnArray), Command::try_from_frame(&Frame::Bulk(Some(b("PING"))), 0));
    assert_eq!(Err(Error::NotAnArray), Command::try_from_frame(&Frame::Array(None), 0));
    assert_eq!(Err(Error::MissingArgument), Command::try_from_frame(&Frame::Array(Some(vec![])), 0));
    assert_eq!(Err(Error::MissingArgument), Command::try_from_frame(&request(&["GET"]), 0));
    assert_eq!(Err(Error::MissingArgument), Command::try_from_frame(&request(&["SET", "k", "v", "PX"]), 0));
    assert_eq!(Err(Error::UnexpectedArgument), Command::try_from_frame(&request(&["PING", "x"]), 0));
    assert_eq!(Err(Error::UnexpectedArgument), Command::try_from_frame(&request(&["GET", "a", "b"]), 0));
    assert_eq!(Err(Error::UnexpectedArgument), Command::try_from_frame(&request(&["SET", "k", "v", "NX"]), 0));
    assert_eq!(Err(Error::WrongType), Command::try_from_frame(&Frame::Array(Some(vec![Frame::Integer(1)])), 0));
    assert_eq!(Err(Error::WrongType), Command::try_from_frame(&request(&["SET", "k", "v", "PX", "-1"]), 0));
    assert_eq!(Err(Error::UnknownCommand), Command::try_from_frame(&request(&["FLUSHALL"]), 0));
}

#[test]
fn parse_error_leaves_store_alone() {
    let mut db = Db::new();
    respond(&mut db, &request(&["SET", "k", "v"]), 0).unwrap();
    assert_eq!(Err(Error::UnexpectedArgument), respond(&mut db, &request(&["SET", "k", "w", "XX"]), 0));
    assert_eq!(Ok(Frame::Bulk(Some(b("v")))), respond(&mut db, &request(&["GET", "k"]), 0));
}

#[test]
fn session_steps() {
    let mut db = Db::new();
    let mut decoder = Decoder::new();
    assert_eq!(Action::Read, step(&mut decoder, &mut db, false, 0));
    decoder.push_bytes(b"*1\r\n$4\r\nPING\r\n*1\r\n$3\r\nNOP\r\n*2\r\n$3\r\nGET");
    assert_eq!(Action::Reply(Frame::Bulk(Some(b("PONG")))), step(&mut decoder, &mut db, false, 0));
    assert_eq!(Action::Skip(Error::UnknownCommand), step(&mut decoder, &mut db, false, 0));
    assert_eq!(Action::Read, step(&mut decoder, &mut db, false, 0));
    assert_eq!(Action::Close(ReadError::UnexpectedEof), step(&mut decoder, &mut db, true, 0));
    let mut clean = Decoder::new();
    assert_eq!(Action::Finish, step(&mut clean, &mut db, true, 0));
    let mut bad = Decoder::new();
    bad.push_bytes(b"hello\r\n");
    assert_eq!(Action::Close(ReadError::InvalidPrefix), step(&mut bad, &mut db, false, 0));
}
