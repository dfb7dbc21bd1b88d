//! The in-memory frame type and its mathematical model.
use vstd::prelude::*;

verus! {

/// A RESP frame. Payloads are owned byte vectors.
#[derive(Debug, PartialEq)]
pub enum Frame {
    Array(Option<Vec<Frame>>),
    Boolean(bool),
    Bulk(Option<Vec<u8>>),
    Error(Vec<u8>),
    Integer(i64),
    Null,
    String(Vec<u8>),
}

/// The mathematical value that a frame denotes.
pub enum Value {
    Array(Option<Seq<Value>>),
    Boolean(bool),
    Bulk(Option<Seq<u8>>),
    Error(Seq<u8>),
    Integer(int),
    Null,
    String(Seq<u8>),
}

pub open spec fn frame_views(s: Seq<Frame>) -> Seq<Value>
    decreases s,
{
    if s.len() == 0 {
        Seq::empty()
    } else {
        frame_views(s.drop_last()).push(s.last().view())
    }
}

impl Frame {
    pub open spec fn view(&self) -> Value
        decreases self,
    {
        match self {
            Frame::Array(None) => Value::Array(None),
            Frame::Array(Some(v)) => Value::Array(Some(frame_views(v@))),
            Frame::Boolean(b) => Value::Boolean(*b),
            Frame::Bulk(None) => Value::Bulk(None),
            Frame::Bulk(Some(d)) => Value::Bulk(Some(d@)),
            Frame::Error(d) => Value::Error(d@),
            Frame::Integer(i) => Value::Integer(*i as int),
            Frame::Null => Value::Null,
            Frame::String(d) => Value::String(d@),
        }
    }
}

} // verus!

verus! {

pub proof fn lemma_frame_views(s: Seq<Frame>)
    ensures
        frame_views(s).len() == s.len(),
        forall|i: int| 0 <= i < s.len() ==> #[trigger] frame_views(s)[i] == s[i].view(),
    decreases s.len(),
{
    if s.len() > 0 {
        lemma_frame_views(s.drop_last());
    }
}

} // verus!

verus! {

impl Frame {
    /// The one-byte wire prefix of this frame's variant.
    pub fn prefix(&self) -> (r: u8)
        ensures
            r == crate::wire::prefix_of(self@),
    {
        match self {
            Frame::Array(_) => 42,
            Frame::Boolean(_) => 35,
            Frame::Bulk(_) => 36,
            Frame::Error(_) => 45,
            Frame::Integer(_) => 58,
            Frame::Null => 95,
            Frame::String(_) => 43,
        }
    }
}

} // verus!

verus! {

/// The payload bytes of a simple string or a non-null bulk.
pub open spec fn payload_of(v: Value) -> Option<Seq<u8>> {
    match v {
        Value::String(d) => Some(d),
        Value::Bulk(Some(d)) => Some(d),
        _ => None,
    }
}

impl Frame {
    /// The payload of a simple string or a non-null bulk; `None` for anything else.
    pub fn bytes(self) -> (r: Option<Vec<u8>>)
        ensures
            match r {
                Some(b) => payload_of(self@) == Some(b@),
                None => payload_of(self@) is None,
            },
    {
        match self {
            Frame::String(buf) => Some(buf),
            Frame::Bulk(Some(buf)) => Some(buf),
            _ => None,
        }
    }

    /// The value of an integer frame; `None` for anything else.
    pub fn i64(self) -> (r: Option<i64>)
        ensures
            match r {
                Some(i) => self@ == Value::Integer(i as int),
                None => !(self@ is Integer),
            },
    {
        match self {
            Frame::Integer(i) => Some(i),
            _ => None,
        }
    }
}

/// The variant that a prefix byte announces.
#[derive(Debug, PartialEq, Eq, Structural)]
pub enum Prefix {
    Array,
    Boolean,
    Bulk,
    Error,
    Integer,
    Null,
    String,
}

/// A byte that announces no variant.
#[derive(Debug, PartialEq, Eq, Structural)]
pub struct InvalidPrefix;

/// The byte that announces each variant.
pub open spec fn prefix_byte(p: Prefix) -> u8 {
    match p {
        Prefix::Array => 42,
        Prefix::Boolean => 35,
        Prefix::Bulk => 36,
        Prefix::Error => 45,
        Prefix::Integer => 58,
        Prefix::Null => 95,
        Prefix::String => 43,
    }
}

/// The variant that `b` announces, if any.
pub fn try_prefix(b: u8) -> (r: Result<Prefix, InvalidPrefix>)
    ensures
        match r {
            Ok(p) => prefix_byte(p) == b,
            Err(_) => forall|p: Prefix| prefix_byte(p) != b,
        },
{
    match b {
        42 => Ok(Prefix::Array),
        35 => Ok(Prefix::Boolean),
        36 => Ok(Prefix::Bulk),
        45 => Ok(Prefix::Error),
        58 => Ok(Prefix::Integer),
        95 => Ok(Prefix::Null),
        43 => Ok(Prefix::String),
        _ => Err(InvalidPrefix),
    }
}

/// A boolean as the wire carries it: `t` or `f`.
#[derive(Debug, PartialEq, Eq, Structural)]
pub struct Bool(pub bool);

/// Boolean payload other than `t` or `f`.
#[derive(Debug, PartialEq, Eq, Structural)]
pub struct InvalidBool;

/// The boolean that a payload spells: `t` or `f`, and nothing else.
pub open spec fn bool_of(value: Seq<u8>) -> Result<Bool, InvalidBool> {
    if value == seq![116u8] {
        Ok(Bool(true))
    } else if value == seq![102u8] {
        Ok(Bool(false))
    } else {
        Err(InvalidBool)
    }
}

impl<'a> TryFrom<&'a [u8]> for Bool {
    type Error = InvalidBool;

    /// Reads a boolean payload: exactly `t` or exactly `f`.
    fn try_from(value: &'a [u8]) -> (r: Result<Bool, InvalidBool>) {
        if value.len() == 1 && value[0] == 116 {
            assert(value@ =~= seq![116u8]);
            Ok(Bool(true))
        } else if value.len() == 1 && value[0] == 102 {
            assert(value@ =~= seq![102u8]);
            Ok(Bool(false))
        } else {
            proof {
                if value@ == seq![116u8] || value@ == seq![102u8] {
                    assert(value@.len() == 1);
                }
            }
            Err(InvalidBool)
        }
    }
}

impl<'a> vstd::std_specs::convert::TryFromSpecImpl<&'a [u8]> for Bool {
    open spec fn obeys_try_from_spec() -> bool {
        true
    }

    open spec fn try_from_spec(value: &'a [u8]) -> Result<Bool, InvalidBool> {
        bool_of(value@)
    }
}

impl From<bool> for Bool {
    fn from(value: bool) -> (r: Bool) {
        Bool(value)
    }
}

impl vstd::std_specs::convert::FromSpecImpl<bool> for Bool {
    open spec fn obeys_from_spec() -> bool {
        true
    }

    open spec fn from_spec(value: bool) -> Bool {
        Bool(value)
    }
}

impl From<Bool> for bool {
    fn from(value: Bool) -> (r: bool) {
        value.0
    }
}

impl vstd::std_specs::convert::FromSpecImpl<Bool> for bool {
    open spec fn obeys_from_spec() -> bool {
        true
    }

    open spec fn from_spec(value: Bool) -> bool {
        value.0
    }
}

impl From<Bool> for u8 {
    /// The wire byte: `t` for true, `f` for false.
    fn from(value: Bool) -> (r: u8) {
        if value.0 { 116 } else { 102 }
    }
}

impl vstd::std_specs::convert::FromSpecImpl<Bool> for u8 {
    open spec fn obeys_from_spec() -> bool {
        true
    }

    open spec fn from_spec(value: Bool) -> u8 {
        if value.0 { 116u8 } else { 102u8 }
    }
}

} // verus!
