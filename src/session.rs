//! The decisions of one connection's request loop, as a step from the bytes
//! received so far to the next action.
use vstd::prelude::*;
use crate::command::{Error, command_of};
use crate::db::{Db, reply_of, respond, store_after};
use crate::decode::{Decoder, ReadError, comparable, is_prefix_byte};
use crate::frame::{Frame, Value};
use crate::wire::{enc, wf};

verus! {

/// What the connection does next.
#[derive(Debug, PartialEq)]
pub enum Action {
    /// Send this reply, then go on.
    Reply(Frame),
    /// The frame was not a command: go on without a reply.
    Skip(Error),
    /// Read more bytes from the stream.
    Read,
    /// The stream ended cleanly between frames: stop.
    Finish,
    /// The stream is out of step or was cut short: close it.
    Close(ReadError),
}

/// The action for the response to a request that is not yet complete.
pub open spec fn waiting(buffered: Seq<u8>, at_end: bool) -> Action {
    if !at_end {
        Action::Read
    } else if buffered.len() == 0 {
        Action::Finish
    } else {
        Action::Close(ReadError::UnexpectedEof)
    }
}

/// Decides the next action from what `decoder` holds, `at_end` telling whether
/// the stream has ended; a whole request is taken off the buffer and carried
/// out against `db` at time `now_ms`.
pub fn step(decoder: &mut Decoder, db: &mut Db, at_end: bool, now_ms: u64) -> (r: Action)
    requires
        old(db).wf(),
    ensures
        final(db).wf(),
        forall|v: Value| wf(v) && comparable(old(decoder)@, v) && enc(v).len() <= old(decoder)@.len()
            ==> final(decoder)@ == old(decoder)@.skip(enc(v).len() as int) && match command_of(v, now_ms) {
                Ok(req) => r matches Action::Reply(f) && f@ == reply_of(old(db)@, req, now_ms)
                    && final(db)@ == store_after(old(db)@, req),
                Err(e) => r == Action::Skip(e) && final(db)@ == old(db)@,
            },
        forall|v: Value| wf(v) && comparable(old(decoder)@, v) && old(decoder)@.len() < enc(v).len()
            ==> r == waiting(old(decoder)@, at_end) && final(decoder)@ == old(decoder)@ && final(db)@ == old(db)@,
        old(decoder)@.len() == 0 ==> r == waiting(old(decoder)@, at_end) && final(db)@ == old(db)@,
        (old(decoder)@.len() > 0 && !is_prefix_byte(old(decoder)@[0]))
            ==> r == Action::Close(ReadError::InvalidPrefix) && final(db)@ == old(db)@,
{
    match decoder.next_frame() {
        Ok(Some(frame)) => {
            match respond(db, &frame, now_ms) {
                Ok(reply) => Action::Reply(reply),
                Err(e) => Action::Skip(e),
            }
        },
        Ok(None) => {
            if !at_end {
                Action::Read
            } else {
                match decoder.end_of_stream() {
                    Ok(_) => Action::Finish,
                    Err(e) => Action::Close(e),
                }
            }
        },
        Err(e) => Action::Close(e),
    }
}

} // verus!
