//! Commands: parsing a request frame into a typed command.
use vstd::prelude::*;
use crate::decode::copy_range;
use crate::digits::{lemma_dec_nat_injective, parse_dec_u64};
use crate::frame::{Frame, Value, payload_of};
use crate::wire::dec_nat;

verus! {

/// A parsed request. `SetValue`'s last field is the expiry deadline, in milliseconds
/// of the same monotonic clock as the `now_ms` it was parsed at.
#[derive(Debug, PartialEq)]
pub enum Command {
    Ping,
    Echo(Vec<u8>),
    Get(Vec<u8>),
    SetValue(Vec<u8>, Vec<u8>, Option<u64>),
}

/// Why a frame is not a command.
#[derive(Debug, PartialEq, Eq, Structural)]
pub enum Error {
    NotAnArray,
    MissingArgument,
    UnexpectedArgument,
    WrongType,
    UnknownCommand,
}

/// The meaning of a command.
pub enum Request {
    Ping,
    Echo(Seq<u8>),
    Get(Seq<u8>),
    SetValue(Seq<u8>, Seq<u8>, Option<u64>),
}

impl Command {
    pub open spec fn view(&self) -> Request {
        match self {
            Command::Ping => Request::Ping,
            Command::Echo(m) => Request::Echo(m@),
            Command::Get(k) => Request::Get(k@),
            Command::SetValue(k, v, e) => Request::SetValue(k@, v@, *e),
        }
    }

    /// Only `SET` writes.
    pub fn is_write(&self) -> (r: bool)
        ensures
            r == (self is SetValue),
    {
        match self {
            Command::SetValue(..) => true,
            _ => false,
        }
    }
}

pub open spec fn ascii_lower(c: u8) -> u8 {
    if 65 <= c <= 90 { (c + 32) as u8 } else { c }
}

/// Equality up to ASCII case.
pub open spec fn eq_ignore_case(a: Seq<u8>, b: Seq<u8>) -> bool {
    a.len() == b.len() && forall|i: int| 0 <= i < a.len() ==> ascii_lower(a[i]) == ascii_lower(b[i])
}

pub open spec fn word_ping() -> Seq<u8> { seq![112u8, 105u8, 110u8, 103u8] }
pub open spec fn word_echo() -> Seq<u8> { seq![101u8, 99u8, 104u8, 111u8] }
pub open spec fn word_get() -> Seq<u8> { seq![103u8, 101u8, 116u8] }
pub open spec fn word_set() -> Seq<u8> { seq![115u8, 101u8, 116u8] }
pub open spec fn word_ex() -> Seq<u8> { seq![101u8, 120u8] }
pub open spec fn word_px() -> Seq<u8> { seq![112u8, 120u8] }

/// The bytes of argument `i`: missing past the end, of the wrong type unless a
/// simple string or a non-null bulk.
pub open spec fn arg_bytes(args: Seq<Value>, i: int) -> Result<Seq<u8>, Error> {
    if i >= args.len() {
        Err(Error::MissingArgument)
    } else {
        match payload_of(args[i]) {
            Some(d) => Ok(d),
            None => Err(Error::WrongType),
        }
    }
}

/// The number that a minimal decimal numeral denotes, if it fits in 64 bits.
pub open spec fn numeral(s: Seq<u8>) -> Option<u64> {
    if exists|n: u64| dec_nat(n as nat) == s {
        Some(choose|n: u64| dec_nat(n as nat) == s)
    } else {
        None
    }
}

/// `now + amount * unit`, held at the largest deadline where it would overflow.
pub open spec fn deadline(now: u64, amount: u64, unit: u64) -> u64 {
    if now + amount * unit > u64::MAX { u64::MAX } else { (now + amount * unit) as u64 }
}

/// A command of one argument.
pub open spec fn one_arg(args: Seq<Value>) -> Result<Seq<u8>, Error> {
    match arg_bytes(args, 1) {
        Err(e) => Err(e),
        Ok(d) => if args.len() > 2 { Err(Error::UnexpectedArgument) } else { Ok(d) },
    }
}

/// `SET key value [EX seconds | PX milliseconds]`.
pub open spec fn set_of(args: Seq<Value>, now: u64) -> Result<Request, Error> {
    match (arg_bytes(args, 1), arg_bytes(args, 2)) {
        (Err(e), _) => Err(e),
        (Ok(_), Err(e)) => Err(e),
        (Ok(k), Ok(v)) => if args.len() == 3 {
            Ok(Request::SetValue(k, v, None))
        } else {
            match arg_bytes(args, 3) {
                Err(e) => Err(e),
                Ok(opt) => if !eq_ignore_case(opt, word_ex()) && !eq_ignore_case(opt, word_px()) {
                    Err(Error::UnexpectedArgument)
                } else {
                    match arg_bytes(args, 4) {
                        Err(e) => Err(e),
                        Ok(amount) => if args.len() > 5 {
                            Err(Error::UnexpectedArgument)
                        } else {
                            match numeral(amount) {
                                None => Err(Error::WrongType),
                                Some(n) => Ok(Request::SetValue(k, v, Some(
                                    deadline(now, n, if eq_ignore_case(opt, word_ex()) { 1000 } else { 1 }),
                                ))),
                            }
                        },
                    }
                },
            }
        },
    }
}

/// The command that a frame denotes, received at time `now`.
pub open spec fn command_of(f: Value, now: u64) -> Result<Request, Error> {
    match f {
        Value::Array(Some(args)) => match arg_bytes(args, 0) {
            Err(e) => Err(e),
            Ok(name) => if eq_ignore_case(name, word_ping()) {
                if args.len() == 1 { Ok(Request::Ping) } else { Err(Error::UnexpectedArgument) }
            } else if eq_ignore_case(name, word_echo()) {
                match one_arg(args) {
                    Err(e) => Err(e),
                    Ok(m) => Ok(Request::Echo(m)),
                }
            } else if eq_ignore_case(name, word_get()) {
                match one_arg(args) {
                    Err(e) => Err(e),
                    Ok(k) => Ok(Request::Get(k)),
                }
            } else if eq_ignore_case(name, word_set()) {
                set_of(args, now)
            } else {
                Err(Error::UnknownCommand)
            },
        },
        _ => Err(Error::NotAnArray),
    }
}

} // verus!

verus! {

fn lower(c: u8) -> (r: u8)
    ensures
        r == ascii_lower(c),
{
    if 65 <= c && c <= 90 { c + 32 } else { c }
}

/// Compares two byte strings up to ASCII case.
pub fn eq_ignore_ascii_case(a: &[u8], b: &[u8]) -> (r: bool)
    ensures
        r == eq_ignore_case(a@, b@),
{
    if a.len() != b.len() {
        return false;
    }
    let mut i: usize = 0;
    while i < a.len()
        invariant
            a@.len() == b@.len(),
            i <= a@.len(),
            forall|j: int| 0 <= j < i ==> ascii_lower(a@[j]) == ascii_lower(b@[j]),
        decreases a@.len() - i,
    {
        if lower(a[i]) != lower(b[i]) {
            return false;
        }
        i = i + 1;
    }
    true
}

fn word(bytes: &[u8]) -> (r: Vec<u8>)
    ensures
        r@ == bytes@,
{
    copy_range(bytes, 0, bytes.len())
}

pub(crate) fn word_of2(a: u8, b: u8) -> (r: Vec<u8>)
    ensures
        r@ == seq![a, b],
{
    let mut v: Vec<u8> = Vec::new();
    v.push(a);
    v.push(b);
    assert(v@ =~= seq![a, b]);
    v
}

pub(crate) fn word_of3(a: u8, b: u8, c: u8) -> (r: Vec<u8>)
    ensures
        r@ == seq![a, b, c],
{
    let mut v = word_of2(a, b);
    v.push(c);
    assert(v@ =~= seq![a, b, c]);
    v
}

pub(crate) fn word_of4(a: u8, b: u8, c: u8, d: u8) -> (r: Vec<u8>)
    ensures
        r@ == seq![a, b, c, d],
{
    let mut v = word_of3(a, b, c);
    v.push(d);
    assert(v@ =~= seq![a, b, c, d]);
    v
}

/// Argument `i`, or `MissingArgument` past the end.
pub fn next(args: &Vec<Frame>, i: usize) -> (r: Result<&Frame, Error>)
    ensures
        i < args@.len() ==> r == Ok::<&Frame, Error>(&args@[i as int]),
        i >= args@.len() ==> r == Err::<&Frame, Error>(Error::MissingArgument),
{
    if i < args.len() {
        Ok(&args[i])
    } else {
        Err(Error::MissingArgument)
    }
}

/// The bytes of argument `i`.
pub fn next_bytes(args: &Vec<Frame>, i: usize) -> (r: Result<Vec<u8>, Error>)
    ensures
        match r {
            Ok(d) => arg_bytes(crate::frame::frame_views(args@), i as int) == Ok::<Seq<u8>, Error>(d@),
            Err(e) => arg_bytes(crate::frame::frame_views(args@), i as int) == Err::<Seq<u8>, Error>(e),
        },
{
    proof { crate::frame::lemma_frame_views(args@); }
    let f = next(args, i)?;
    match f {
        Frame::String(d) => Ok(word(d.as_slice())),
        Frame::Bulk(Some(d)) => Ok(word(d.as_slice())),
        _ => Err(Error::WrongType),
    }
}

fn amount_of(d: &Vec<u8>) -> (r: Option<u64>)
    ensures
        r == numeral(d@),
{
    let r = parse_dec_u64(d.as_slice(), 0, d.len());
    assert(d@.subrange(0, d@.len() as int) =~= d@);
    proof {
        match r {
            Some(n) => {
                assert(dec_nat(n as nat) == d@);
                let m = choose|m: u64| dec_nat(m as nat) == d@;
                lemma_dec_nat_injective(m as nat, n as nat);
            },
            None => {
                if exists|n: u64| dec_nat(n as nat) == d@ {
                    let n = choose|n: u64| dec_nat(n as nat) == d@;
                    assert(n as nat <= u64::MAX);
                }
            },
        }
    }
    r
}

fn deadline_exec(now: u64, amount: u64, unit: u64) -> (r: u64)
    requires
        unit == 1 || unit == 1000,
    ensures
        r == deadline(now, amount, unit),
{
    let scaled: u128 = if unit == 1000 { amount as u128 * 1000 } else { amount as u128 };
    assert(scaled == amount * unit);
    let total: u128 = now as u128 + scaled;
    if total > u64::MAX as u128 { u64::MAX } else { total as u64 }
}

impl Command {
    /// The command that `frame` denotes, received at `now_ms` on the monotonic clock.
    pub fn try_from_frame(frame: &Frame, now_ms: u64) -> (r: Result<Command, Error>)
        ensures
            match r {
                Ok(c) => command_of(frame@, now_ms) == Ok::<Request, Error>(c@),
                Err(e) => command_of(frame@, now_ms) == Err::<Request, Error>(e),
            },
    {
        let args = match frame {
            Frame::Array(Some(args)) => args,
            _ => {
                return Err(Error::NotAnArray);
            },
        };
        proof { crate::frame::lemma_frame_views(args@); }
        let name = next_bytes(args, 0)?;
        let n = args.len();
        if eq_ignore_ascii_case(name.as_slice(), word_of4(112, 105, 110, 103).as_slice()) {
            if n == 1 { Ok(Command::Ping) } else { Err(Error::UnexpectedArgument) }
        } else if eq_ignore_ascii_case(name.as_slice(), word_of4(101, 99, 104, 111).as_slice()) {
            let m = next_bytes(args, 1)?;
            if n > 2 { Err(Error::UnexpectedArgument) } else { Ok(Command::Echo(m)) }
        } else if eq_ignore_ascii_case(name.as_slice(), word_of3(103, 101, 116).as_slice()) {
            let k = next_bytes(args, 1)?;
            if n > 2 { Err(Error::UnexpectedArgument) } else { Ok(Command::Get(k)) }
        } else if eq_ignore_ascii_case(name.as_slice(), word_of3(115, 101, 116).as_slice()) {
            let k = next_bytes(args, 1)?;
            let v = next_bytes(args, 2)?;
            if n == 3 {
                return Ok(Command::SetValue(k, v, None));
            }
            let opt = next_bytes(args, 3)?;
            let is_ex = eq_ignore_ascii_case(opt.as_slice(), word_of2(101, 120).as_slice());
            let is_px = eq_ignore_ascii_case(opt.as_slice(), word_of2(112, 120).as_slice());
            if !is_ex && !is_px {
                return Err(Error::UnexpectedArgument);
            }
            let amount = next_bytes(args, 4)?;
            if n > 5 {
                return Err(Error::UnexpectedArgument);
            }
            match amount_of(&amount) {
                None => Err(Error::WrongType),
                Some(a) => {
                    let unit: u64 = if is_ex { 1000 } else { 1 };
                    Ok(Command::SetValue(k, v, Some(deadline_exec(now_ms, a, unit))))
                },
            }
        } else {
            Err(Error::UnknownCommand)
        }
    }
}

} // verus!
