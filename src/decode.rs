//! Decoding of RESP frames from a byte buffer, with an explicit stack of
//! pending arrays instead of recursion over the nesting depth.
use vstd::prelude::*;
use crate::digits::{parse_dec_i64, parse_dec_u64};
use crate::encode::head;
use crate::frame::{Frame, Value, frame_views, lemma_frame_views};
use crate::wire::{
    CR, LF, body_of, crlf, dec_nat, enc, enc_seq, header_text, is_text, lemma_enc_prefix_free,
    lemma_enc_seq_first, lemma_enc_shape, lemma_wf_seq, line, minus_one, prefix_of, wf,
};

verus! {

/// Why a byte stream is not a valid sequence of RESP frames.
#[derive(Debug, PartialEq, Eq, Structural)]
pub enum ReadError {
    InvalidBool,
    InvalidPrefix,
    MissingTerminator,
    ParseInt,
    UnexpectedEof,
}

/// The outcome of decoding the front of a buffer.
#[derive(Debug, PartialEq)]
pub enum Parsed {
    /// A whole frame, and the number of bytes it took.
    Complete(Frame, usize),
    /// The buffer holds only the start of a frame.
    Incomplete,
}

pub open spec fn is_prefix_byte(c: u8) -> bool {
    c == 42 || c == 35 || c == 36 || c == 45 || c == 58 || c == 95 || c == 43
}

/// `buf` and the encoding of `v` agree wherever both have a byte.
pub open spec fn comparable(buf: Seq<u8>, v: Value) -> bool {
    forall|j: int| 0 <= j < buf.len() && j < enc(v).len() ==> buf[j] == enc(v)[j]
}

/// The bytes one step of the decoder reads for `v`: the header of a non-empty
/// array, the whole of anything else.
pub open spec fn token(v: Value) -> Seq<u8> {
    match v {
        Value::Array(Some(s)) => if s.len() > 0 { head(v) } else { enc(v) },
        _ => enc(v),
    }
}

pub open spec fn opens(v: Value) -> bool {
    v matches Value::Array(Some(s)) && s.len() > 0
}

spec fn agrees(buf: Seq<u8>, pos: int, s: Seq<u8>) -> bool {
    forall|j: int| 0 <= j < s.len() && pos + j < buf.len() ==> buf[pos + j] == s[j]
}

enum Token {
    Frame(Frame, usize),
    Open(usize, usize),
    Short,
}

proof fn lemma_token_shape(v: Value)
    ensures
        token(v) == line(prefix_of(v), header_text(v)) + (if opens(v) { Seq::empty() } else { body_of(v) }),
        enc(v) == token(v) + (if opens(v) { body_of(v) } else { Seq::empty() }),
        wf(v) ==> is_text(header_text(v)),
        opens(v) ==> token(v) == head(v),
{
    lemma_enc_shape(v);
    crate::digits::lemma_dec_nat_shape(0);
    assert(line(prefix_of(v), header_text(v)) + Seq::<u8>::empty() =~= line(prefix_of(v), header_text(v)));
    assert(enc(v) + Seq::<u8>::empty() =~= enc(v));
    match v {
        Value::Array(Some(s)) => {
            crate::digits::lemma_dec_nat_shape(s.len());
            if s.len() == 0 {
                assert(enc_seq(s) =~= Seq::<u8>::empty());
            }
        },
        Value::Bulk(Some(d)) => crate::digits::lemma_dec_nat_shape(d.len()),
        Value::Integer(i) => {
            crate::digits::lemma_dec_nat_shape(i as nat);
            crate::digits::lemma_dec_nat_shape((-i) as nat);
        },
        _ => {},
    }
}

fn find_lf(buf: &[u8], from: usize) -> (r: Option<usize>)
    requires
        from <= buf@.len(),
    ensures
        match r {
            Some(k) => from <= k < buf@.len() && buf@[k as int] == LF && forall|j: int| from <= j < k ==> buf@[j] != LF,
            None => forall|j: int| from <= j < buf@.len() ==> buf@[j] != LF,
        },
{
    let mut i = from;
    while i < buf.len()
        invariant
            from <= i <= buf@.len(),
            forall|j: int| from <= j < i ==> buf@[j] != LF,
        decreases buf@.len() - i,
    {
        if buf[i] == LF {
            return Some(i);
        }
        i = i + 1;
    }
    None
}

fn has_cr(buf: &[u8], lo: usize, hi: usize) -> (r: bool)
    requires
        lo <= hi <= buf@.len(),
    ensures
        r == exists|j: int| lo <= j < hi && buf@[j] == CR,
{
    let mut i = lo;
    while i < hi
        invariant
            lo <= i <= hi <= buf@.len(),
            forall|j: int| lo <= j < i ==> buf@[j] != CR,
        decreases hi - i,
    {
        if buf[i] == CR {
            return true;
        }
        i = i + 1;
    }
    false
}

pub(crate) fn copy_range(buf: &[u8], lo: usize, hi: usize) -> (r: Vec<u8>)
    requires
        lo <= hi <= buf@.len(),
    ensures
        r@ == buf@.subrange(lo as int, hi as int),
{
    let mut out: Vec<u8> = Vec::new();
    let mut i = lo;
    while i < hi
        invariant
            lo <= i <= hi <= buf@.len(),
            out@ == buf@.subrange(lo as int, i as int),
        decreases hi - i,
    {
        out.push(buf[i]);
        i = i + 1;
        assert(out@ =~= buf@.subrange(lo as int, i as int));
    }
    out
}

fn is_minus_one(buf: &[u8], lo: usize, hi: usize) -> (r: bool)
    requires
        lo <= hi <= buf@.len(),
    ensures
        r == (buf@.subrange(lo as int, hi as int) == minus_one()),
{
    let r = hi - lo == 2 && buf[lo] == 45 && buf[lo + 1] == 49;
    proof {
        if r {
            assert(buf@.subrange(lo as int, hi as int) =~= minus_one());
        }
        if buf@.subrange(lo as int, hi as int) == minus_one() {
            assert(minus_one().len() == 2 && minus_one()[0] == 45 && minus_one()[1] == 49);
            assert(hi - lo == 2);
            assert(buf@.subrange(lo as int, hi as int)[0] == buf@[lo as int]);
            assert(buf@.subrange(lo as int, hi as int)[1] == buf@[lo + 1]);
        }
    }
    r
}

} // verus!

verus! {

proof fn lemma_agree_facts(buf: Seq<u8>, pos: int, v: Value)
    requires
        0 <= pos <= buf.len(),
        wf(v),
        agrees(buf, pos, token(v)),
    ensures
        is_text(header_text(v)),
        token(v).len() == header_text(v).len() + 3 + (if opens(v) { 0 } else { body_of(v).len() }),
        pos < buf.len() ==> buf[pos] == prefix_of(v),
        forall|j: int| pos + 1 <= j < buf.len() && j < pos + 1 + header_text(v).len()
            ==> buf[j] == header_text(v)[j - pos - 1],
        pos + 1 + header_text(v).len() < buf.len() ==> buf[pos + 1 + header_text(v).len()] == CR,
        pos + 2 + header_text(v).len() < buf.len() ==> buf[pos + 2 + header_text(v).len()] == LF,
        !opens(v) ==> forall|j: int| 0 <= j < body_of(v).len() && pos + 3 + header_text(v).len() + j < buf.len()
            ==> buf[pos + 3 + header_text(v).len() + j] == body_of(v)[j],
{
    lemma_token_shape(v);
    let h = header_text(v);
    let t = token(v);
    assert(t[0] == prefix_of(v));
    assert forall|j: int| pos + 1 <= j < buf.len() && j < pos + 1 + h.len() implies buf[j] == h[j - pos - 1] by {
        assert(buf[pos + (j - pos)] == t[j - pos]);
    };
    if pos + 1 + h.len() < buf.len() {
        assert(buf[pos + (1 + h.len())] == t[1 + h.len() as int]);
    }
    if pos + 2 + h.len() < buf.len() {
        assert(buf[pos + (2 + h.len())] == t[2 + h.len() as int]);
    }
    if !opens(v) {
        assert forall|j: int| 0 <= j < body_of(v).len() && pos + 3 + h.len() + j < buf.len()
            implies buf[pos + 3 + h.len() + j] == body_of(v)[j] by {
            assert(buf[pos + (3 + h.len() + j)] == t[3 + h.len() + j]);
        };
    }
}

/// Reads one step at `pos`: a whole frame, or the header of a non-empty array.
#[verifier::rlimit(100)]
fn parse_token(buf: &[u8], pos: usize, Ghost(x): Ghost<Option<Value>>) -> (r: Result<Token, ReadError>)
    requires
        pos <= buf@.len(),
        x matches Some(v) ==> wf(v) && agrees(buf@, pos as int, token(v)),
    ensures
        x matches Some(v) ==> if buf@.len() < pos + token(v).len() {
            r == Ok::<Token, ReadError>(Token::Short)
        } else if opens(v) {
            r matches Ok(Token::Open(n, next)) && n == crate::encode::children(v).len() && next == pos + token(v).len()
        } else {
            r matches Ok(Token::Frame(f, next)) && f@ == v && next == pos + token(v).len()
        },
        r matches Ok(Token::Frame(f, next)) ==> pos < next <= buf@.len() && wf(f@)
            && buf@.subrange(pos as int, next as int) == enc(f@),
        r matches Ok(Token::Open(n, next)) ==> pos < next <= buf@.len() && n > 0
            && buf@.subrange(pos as int, next as int) == line(42, dec_nat(n as nat)),
        pos == buf@.len() ==> r == Ok::<Token, ReadError>(Token::Short),
        (pos < buf@.len() && !is_prefix_byte(buf@[pos as int])) <==> r == Err::<Token, ReadError>(ReadError::InvalidPrefix),
{
    proof {
        if let Some(v) = x {
            lemma_agree_facts(buf@, pos as int, v);
        }
    }
    if pos >= buf.len() {
        return Ok(Token::Short);
    }
    let p = buf[pos];
    if !(p == 42 || p == 35 || p == 36 || p == 45 || p == 58 || p == 95 || p == 43) {
        return Err(ReadError::InvalidPrefix);
    }
    let k = match find_lf(buf, pos + 1) {
        Some(k) => k,
        None => {
            proof {
                if let Some(v) = x {
                    let h = header_text(v);
                    if pos + 2 + h.len() < buf@.len() {
                        assert(buf@[pos + 2 + h.len()] == LF);
                    }
                }
            }
            return Ok(Token::Short);
        },
    };
    proof {
        if let Some(v) = x {
            let h = header_text(v);
            if k < pos + 1 + h.len() {
                assert(buf@[k as int] == h[k - pos - 1]);
            }
            if k == pos + 1 + h.len() {
                assert(buf@[k as int] == CR);
            }
            if k > pos + 2 + h.len() {
                assert(buf@[pos + 2 + h.len()] == LF);
            }
            assert(k == pos + 2 + h.len());
            assert(buf@.subrange(pos + 1, k - 1) =~= h);
        }
    }
    if k < pos + 2 || buf[k - 1] != CR {
        return Err(ReadError::MissingTerminator);
    }
    let lo = pos + 1;
    let hi = k - 1;
    let next = k + 1;
    let ghost text = buf@.subrange(lo as int, hi as int);
    assert(buf@.subrange(pos as int, next as int) =~= line(p, text));
    if p == 43 || p == 45 {
        if has_cr(buf, lo, hi) {
            proof {
                if let Some(v) = x {
                    let j = choose|j: int| lo <= j < hi && buf@[j] == CR;
                    assert(header_text(v)[j - lo] == buf@[j]);
                }
            }
            return Err(ReadError::MissingTerminator);
        }
        let d = copy_range(buf, lo, hi);
        assert(is_text(d@)) by {
            assert forall|j: int| 0 <= j < d@.len() implies d@[j] != CR && d@[j] != LF by {
                assert(d@[j] == buf@[lo + j]);
            };
        };
        if p == 43 {
            Ok(Token::Frame(Frame::String(d), next))
        } else {
            Ok(Token::Frame(Frame::Error(d), next))
        }
    } else if p == 95 {
        if hi != lo {
            return Err(ReadError::MissingTerminator);
        }
        assert(text =~= Seq::<u8>::empty());
        Ok(Token::Frame(Frame::Null, next))
    } else if p == 35 {
        if hi == lo + 1 && buf[lo] == 116 {
            assert(text =~= seq![116u8]);
            Ok(Token::Frame(Frame::Boolean(true), next))
        } else if hi == lo + 1 && buf[lo] == 102 {
            assert(text =~= seq![102u8]);
            Ok(Token::Frame(Frame::Boolean(false), next))
        } else {
            proof {
                if let Some(v) = x {
                    assert(header_text(v)[0] == buf@[lo as int]);
                }
            }
            Err(ReadError::InvalidBool)
        }
    } else if p == 58 {
        proof {
            if let Some(v) = x {
                if let Value::Integer(i) = v {
                    assert(buf@.subrange(lo as int, hi as int) == crate::wire::dec_int((i as i64) as int));
                }
            }
        }
        match parse_dec_i64(buf, lo, hi) {
            Some(i) => Ok(Token::Frame(Frame::Integer(i), next)),
            None => Err(ReadError::ParseInt),
        }
    } else {
        proof {
            if let Some(v) = x {
                crate::digits::lemma_dec_nat_shape(0);
                match v {
                    Value::Array(Some(s)) => {
                        crate::digits::lemma_dec_nat_shape(s.len());
                        assert(header_text(v)[0] != minus_one()[0]);
                    },
                    Value::Bulk(Some(d)) => {
                        crate::digits::lemma_dec_nat_shape(d.len());
                        assert(header_text(v)[0] != minus_one()[0]);
                    },
                    _ => {},
                }
            }
        }
        if is_minus_one(buf, lo, hi) {
            if p == 36 {
                return Ok(Token::Frame(Frame::Bulk(None), next));
            } else {
                return Ok(Token::Frame(Frame::Array(None), next));
            }
        }
        let n = match parse_dec_u64(buf, lo, hi) {
            Some(n) => n,
            None => {
                return Err(ReadError::ParseInt);
            },
        };
        if n as u128 > usize::MAX as u128 {
            return Err(ReadError::ParseInt);
        }
        let n = n as usize;
        if p == 36 {
            if n as u128 + 2 > (buf.len() - next) as u128 {
                return Ok(Token::Short);
            }
            let e = next + n;
            if buf[e] != CR || buf[e + 1] != LF {
                proof {
                    if let Some(v) = x {
                        if let Value::Bulk(Some(d)) = v {
                            let h = header_text(v);
                            assert(body_of(v)[d.len() as int] == CR);
                            assert(body_of(v)[d.len() as int + 1] == LF);
                            assert(buf@[pos + 3 + h.len() + d.len()] == CR);
                            assert(buf@[pos + 3 + h.len() + d.len() + 1] == LF);
                        }
                    }
                }
                return Err(ReadError::MissingTerminator);
            }
            let d = copy_range(buf, next, e);
            assert(buf@.subrange(pos as int, (e + 2) as int) =~= line(36, dec_nat(n as nat)) + d@ + crlf()) by {
                assert(buf@.subrange(pos as int, next as int) == line(36, dec_nat(n as nat)));
            };
            proof {
                if let Some(v) = x {
                    if let Value::Bulk(Some(dv)) = v {
                        let h = header_text(v);
                        assert forall|j: int| 0 <= j < dv.len() implies d@[j] == dv[j] by {
                            assert(body_of(v)[j] == dv[j]);
                            assert(buf@[pos + 3 + h.len() + j] == body_of(v)[j]);
                        };
                        assert(d@ =~= dv);
                    }
                }
            }
            Ok(Token::Frame(Frame::Bulk(Some(d)), e + 2))
        } else if n == 0 {
            let empty: Vec<Frame> = Vec::new();
            proof {
                assert(frame_views(empty@) =~= Seq::<Value>::empty());
                assert(enc_seq(Seq::<Value>::empty()) =~= Seq::<u8>::empty());
                assert(line(42, dec_nat(0)) + Seq::<u8>::empty() =~= line(42, dec_nat(0)));
                if let Some(v) = x {
                    if let Value::Array(Some(sv)) = v {
                        assert(sv =~= Seq::<Value>::empty());
                    }
                }
            }
            Ok(Token::Frame(Frame::Array(Some(empty)), next))
        } else {
            Ok(Token::Open(n, next))
        }
    }
}

} // verus!

verus! {

/// The bytes still owed by the remaining siblings at each level, innermost first.
spec fn owed(todo: Seq<Seq<Value>>) -> Seq<u8>
    decreases todo.len(),
{
    if todo.len() == 0 {
        Seq::empty()
    } else {
        enc_seq(todo.last()) + owed(todo.drop_last())
    }
}

/// The shape of the decoder's stack: a base level that wants one frame, and
/// below the top only levels still waiting for a child.
spec fn stack_ok(stack: Seq<(Vec<Frame>, usize)>) -> bool {
    &&& stack.len() >= 1
    &&& stack[0].1 == 1
    &&& forall|k: int| 0 <= k < stack.len() ==> (#[trigger] stack[k]).0@.len() <= stack[k].1
    &&& forall|k: int| 0 <= k < stack.len() - 1 ==> (#[trigger] stack[k]).0@.len() < stack[k].1
}

/// How the stack stands to the value `v0` whose encoding `t` the buffer follows:
/// `targets[k]` is the full child list of level `k`, `todo[k]` what of it is
/// still to be read, and `t` from `pos` on is what those still owe.
spec fn follows_target(
    stack: Seq<(Vec<Frame>, usize)>,
    targets: Seq<Seq<Value>>,
    todo: Seq<Seq<Value>>,
    v0: Value,
    t: Seq<u8>,
    pos: int,
) -> bool {
    &&& targets.len() == stack.len()
    &&& todo.len() == stack.len()
    &&& targets[0] == seq![v0]
    &&& forall|k: int| 0 <= k < stack.len() ==> (#[trigger] stack[k]).1 == targets[k].len()
    &&& forall|k: int| 0 <= k < stack.len() - 1 ==> #[trigger] targets[k] == frame_views(stack[k].0@) + seq![Value::Array(Some(targets[k + 1]))] + todo[k]
    &&& targets.last() == frame_views(stack.last().0@) + todo.last()
    &&& forall|k: int, j: int| 0 <= k < todo.len() && 0 <= j < todo[k].len() ==> wf(#[trigger] todo[k][j])
    &&& 0 <= pos <= t.len()
    &&& t.subrange(pos, t.len() as int) == owed(todo)
}

/// The bytes that the frames on the stack were read from: each level's array
/// header (none for the base level), then its children so far.
spec fn consumed(stack: Seq<(Vec<Frame>, usize)>) -> Seq<u8>
    decreases stack.len(),
{
    if stack.len() <= 1 {
        if stack.len() == 0 { Seq::empty() } else { enc_seq(frame_views(stack[0].0@)) }
    } else {
        consumed(stack.drop_last()) + line(42, dec_nat(stack.last().1 as nat)) + enc_seq(frame_views(stack.last().0@))
    }
}

spec fn children_wf(stack: Seq<(Vec<Frame>, usize)>) -> bool {
    forall|k: int, j: int| 0 <= k < stack.len() && 0 <= j < stack[k].0@.len() ==> wf(#[trigger] stack[k].0@[j]@)
}

/// A child added to the top level adds its encoding.
proof fn lemma_consumed_child(s: Seq<(Vec<Frame>, usize)>, e: (Vec<Frame>, usize), x: Value)
    requires
        s.len() >= 1,
        e.1 == s.last().1,
        frame_views(e.0@) == frame_views(s.last().0@).push(x),
    ensures
        consumed(s.drop_last().push(e)) == consumed(s) + enc(x),
{
    let n = s.drop_last().push(e);
    assert(n.drop_last() =~= s.drop_last());
    assert(frame_views(s.last().0@).push(x).drop_last() =~= frame_views(s.last().0@));
    assert(enc_seq(frame_views(e.0@)) == enc_seq(frame_views(s.last().0@)) + enc(x));
    if s.len() == 1 {
        assert(n[0] == e);
        assert(consumed(n) =~= consumed(s) + enc(x));
    } else {
        assert(consumed(n) =~= consumed(s) + enc(x));
    }
}

/// A new level adds its array header.
proof fn lemma_consumed_open(s: Seq<(Vec<Frame>, usize)>, e: (Vec<Frame>, usize))
    requires
        s.len() >= 1,
        e.0@.len() == 0,
    ensures
        consumed(s.push(e)) == consumed(s) + line(42, dec_nat(e.1 as nat)),
{
    lemma_frame_views(e.0@);
    assert(frame_views(e.0@) =~= Seq::<Value>::empty());
    assert(enc_seq(Seq::<Value>::empty()) =~= Seq::<u8>::empty());
    assert(s.push(e).drop_last() =~= s);
    assert(consumed(s.push(e)) =~= consumed(s) + line(42, dec_nat(e.1 as nat)));
}

/// Folding a full level into its parent reads no new bytes.
proof fn lemma_consumed_fold(s: Seq<(Vec<Frame>, usize)>, e: (Vec<Frame>, usize))
    requires
        s.len() >= 2,
        s.last().0@.len() == s.last().1,
        e.1 == s[s.len() - 2].1,
        frame_views(e.0@) == frame_views(s[s.len() - 2].0@).push(Value::Array(Some(frame_views(s.last().0@)))),
    ensures
        consumed(s.drop_last().drop_last().push(e)) == consumed(s),
{
    let c = s.last();
    let x = Value::Array(Some(frame_views(c.0@)));
    lemma_frame_views(c.0@);
    assert(s.drop_last().last() == s[s.len() - 2]);
    lemma_consumed_child(s.drop_last(), e, x);
    assert(enc(x) == line(42, dec_nat(c.1 as nat)) + enc_seq(frame_views(c.0@)));
    assert(consumed(s) =~= consumed(s.drop_last()) + enc(x));
}

proof fn lemma_comparable_unique(buf: Seq<u8>, v: Value, w: Value)
    requires
        wf(v),
        wf(w),
        comparable(buf, v),
        comparable(buf, w),
        enc(v).len() <= buf.len(),
    ensures
        v == w,
{
    let lv = enc(v).len() as int;
    let lw = enc(w).len() as int;
    if lw <= buf.len() {
        assert(enc(v) + buf.skip(lv) =~= buf);
        assert(enc(w) + buf.skip(lw) =~= buf);
        lemma_enc_prefix_free(v, w, buf.skip(lv), buf.skip(lw));
    } else {
        assert(enc(v) + enc(w).skip(lv) =~= enc(w) + Seq::<u8>::empty()) by {
            assert forall|j: int| 0 <= j < lv implies enc(v)[j] == enc(w)[j] by {
                assert(buf[j] == enc(v)[j]);
                assert(buf[j] == enc(w)[j]);
            };
        };
        lemma_enc_prefix_free(v, w, enc(w).skip(lv), Seq::<u8>::empty());
    }
}

proof fn lemma_start(stack: Seq<(Vec<Frame>, usize)>, v0: Value)
    requires
        wf(v0),
        stack.len() == 1,
        stack[0].0@.len() == 0,
        stack[0].1 == 1,
    ensures
        follows_target(stack, seq![seq![v0]], seq![seq![v0]], v0, enc(v0), 0),
{
    let todo = seq![seq![v0]];
    lemma_enc_seq_first(seq![v0]);
    assert(seq![v0].skip(1) =~= Seq::<Value>::empty());
    assert(enc_seq(Seq::<Value>::empty()) =~= Seq::<u8>::empty());
    assert(todo.drop_last() =~= Seq::<Seq<Value>>::empty());
    assert(owed(todo.drop_last()) =~= Seq::<u8>::empty());
    assert(todo.last() == seq![v0]);
    assert(enc_seq(seq![v0]) =~= enc(v0));
    assert(owed(todo) =~= enc(v0));
    assert(enc(v0).subrange(0, enc(v0).len() as int) =~= enc(v0));
    lemma_frame_views(stack[0].0@);
    assert(frame_views(stack[0].0@) =~= Seq::<Value>::empty());
    assert(seq![seq![v0]].last() =~= frame_views(stack.last().0@) + todo.last());
}

/// The top level is full: it holds exactly the value sought, and nothing is owed.
proof fn lemma_finish(stack: Seq<(Vec<Frame>, usize)>, targets: Seq<Seq<Value>>, todo: Seq<Seq<Value>>, v0: Value, t: Seq<u8>, pos: int)
    requires
        follows_target(stack, targets, todo, v0, t, pos),
        stack.len() == 1,
        stack[0].0@.len() == stack[0].1,
    ensures
        frame_views(stack[0].0@) == seq![v0],
        pos == t.len(),
{
    lemma_frame_views(stack[0].0@);
    assert(stack[0].1 == targets[0].len());
    assert(todo.last().len() == 0);
    assert(frame_views(stack[0].0@) =~= seq![v0]);
    assert(todo.drop_last() =~= Seq::<Seq<Value>>::empty());
    assert(owed(todo.drop_last()) =~= Seq::<u8>::empty());
    assert(enc_seq(todo.last()) =~= Seq::<u8>::empty());
    assert(owed(todo) =~= Seq::<u8>::empty());
}

/// Closing a full level: its frames become one array in the level below.
proof fn lemma_fold(
    old_stack: Seq<(Vec<Frame>, usize)>,
    stack: Seq<(Vec<Frame>, usize)>,
    targets: Seq<Seq<Value>>,
    todo: Seq<Seq<Value>>,
    v0: Value,
    t: Seq<u8>,
    pos: int,
)
    requires
        follows_target(old_stack, targets, todo, v0, t, pos),
        old_stack.len() >= 2,
        old_stack.last().0@.len() == old_stack.last().1,
        stack.len() == old_stack.len() - 1,
        forall|k: int| 0 <= k < stack.len() - 1 ==> stack[k] == old_stack[k],
        stack.last().1 == old_stack[stack.len() - 1].1,
        frame_views(stack.last().0@) == frame_views(old_stack[stack.len() - 1].0@).push(
            Value::Array(Some(frame_views(old_stack.last().0@))),
        ),
    ensures
        follows_target(stack, targets.drop_last(), todo.drop_last(), v0, t, pos),
{
    let top = stack.len() - 1;
    lemma_frame_views(old_stack.last().0@);
    lemma_frame_views(old_stack[top].0@);
    assert(todo.last().len() == 0);
    assert(todo.last() =~= Seq::<Value>::empty());
    assert(targets.last() =~= frame_views(old_stack.last().0@));
    assert(targets[top] == frame_views(old_stack[top].0@) + seq![Value::Array(Some(targets[top + 1]))] + todo[top]);
    let nt = targets.drop_last();
    let nd = todo.drop_last();
    assert(nt.last() =~= frame_views(stack.last().0@) + nd.last());
    assert(enc_seq(todo.last()) =~= Seq::<u8>::empty());
    assert(owed(todo) =~= owed(nd));
    assert forall|k: int| 0 <= k < stack.len() - 1 implies #[trigger] nt[k]
        == frame_views(stack[k].0@) + seq![Value::Array(Some(nt[k + 1]))] + nd[k] by {
        assert(stack[k] == old_stack[k]);
        assert(targets[k] == frame_views(old_stack[k].0@) + seq![Value::Array(Some(targets[k + 1]))] + todo[k]);
    };
    assert forall|k: int| 0 <= k < stack.len() implies (#[trigger] stack[k]).1 == nt[k].len() by {
        if k < stack.len() - 1 {
            assert(stack[k] == old_stack[k]);
        }
        assert(old_stack[k].1 == targets[k].len());
    };
    assert forall|k: int, j: int| 0 <= k < nd.len() && 0 <= j < nd[k].len() implies wf(#[trigger] nd[k][j]) by {
        assert(nd[k] == todo[k]);
    };
}

/// With the top level still short of children, the next value sought is the
/// first of those still owed there, and the buffer agrees with its bytes.
proof fn lemma_next(buf: Seq<u8>, stack: Seq<(Vec<Frame>, usize)>, targets: Seq<Seq<Value>>, todo: Seq<Seq<Value>>, v0: Value, pos: int)
    requires
        follows_target(stack, targets, todo, v0, enc(v0), pos),
        stack.len() >= 1,
        comparable(buf, v0),
        stack.last().0@.len() < stack.last().1,
    ensures
        todo.last().len() > 0,
        wf(todo.last()[0]),
        agrees(buf, pos, token(todo.last()[0])),
        enc(v0).subrange(pos, enc(v0).len() as int) == token(todo.last()[0])
            + (if opens(todo.last()[0]) { enc_seq(crate::encode::children(todo.last()[0])) } else { Seq::empty() })
            + enc_seq(todo.last().skip(1)) + owed(todo.drop_last()),
{
    let t = enc(v0);
    let top = stack.len() - 1;
    lemma_frame_views(stack.last().0@);
    assert(stack[top] == stack.last());
    assert(stack[top].1 == targets[top].len());
    assert(todo.last().len() > 0);
    let x = todo.last()[0];
    assert(todo[top] == todo.last());
    assert(wf(todo[top][0]));
    lemma_enc_seq_first(todo.last());
    lemma_token_shape(x);
    let extra = if opens(x) { enc_seq(crate::encode::children(x)) } else { Seq::<u8>::empty() };
    assert(if opens(x) { body_of(x) } else { Seq::<u8>::empty() } == extra);
    let rest = extra + enc_seq(todo.last().skip(1)) + owed(todo.drop_last());
    assert(owed(todo) =~= token(x) + rest);
    assert(t.subrange(pos, t.len() as int) =~= token(x) + extra + enc_seq(todo.last().skip(1)) + owed(todo.drop_last()));
    assert forall|j: int| 0 <= j < token(x).len() && pos + j < buf.len() implies buf[pos + j] == token(x)[j] by {
        assert(t.subrange(pos, t.len() as int)[j] == t[pos + j]);
        assert((token(x) + rest)[j] == token(x)[j]);
    };
}

/// A whole frame read at the top level.
proof fn lemma_frame_step(
    old_stack: Seq<(Vec<Frame>, usize)>,
    stack: Seq<(Vec<Frame>, usize)>,
    targets: Seq<Seq<Value>>,
    todo: Seq<Seq<Value>>,
    v0: Value,
    pos: int,
    next: int,
)
    requires
        follows_target(old_stack, targets, todo, v0, enc(v0), pos),
        old_stack.len() >= 1,
        todo.last().len() > 0,
        !opens(todo.last()[0]),
        enc(v0).subrange(pos, enc(v0).len() as int) == token(todo.last()[0]) + enc_seq(todo.last().skip(1)) + owed(todo.drop_last()),
        next == pos + token(todo.last()[0]).len(),
        stack.len() == old_stack.len(),
        forall|k: int| 0 <= k < stack.len() - 1 ==> stack[k] == old_stack[k],
        stack.last().1 == old_stack.last().1,
        frame_views(stack.last().0@) == frame_views(old_stack.last().0@).push(todo.last()[0]),
    ensures
        follows_target(stack, targets, todo.update(todo.len() - 1, todo.last().skip(1)), v0, enc(v0), next),
{
    let t = enc(v0);
    let top = stack.len() - 1;
    let x = todo.last()[0];
    let nd = todo.update(top, todo.last().skip(1));
    assert(todo.last() =~= seq![x] + nd.last());
    assert(targets.last() =~= frame_views(stack.last().0@) + nd.last());
    assert(nd.drop_last() =~= todo.drop_last());
    assert(owed(nd) =~= enc_seq(nd.last()) + owed(todo.drop_last()));
    assert(t.subrange(next, t.len() as int) =~= owed(nd)) by {
        assert(t.subrange(next, t.len() as int) =~= t.subrange(pos, t.len() as int).skip(token(x).len() as int));
    };
    assert forall|k: int, j: int| 0 <= k < nd.len() && 0 <= j < nd[k].len() implies wf(#[trigger] nd[k][j]) by {
        if k == top {
            assert(nd[k][j] == todo[k][j + 1]);
        } else {
            assert(nd[k] == todo[k]);
        }
    };
    assert forall|k: int| 0 <= k < stack.len() - 1 implies #[trigger] targets[k]
        == frame_views(stack[k].0@) + seq![Value::Array(Some(targets[k + 1]))] + nd[k] by {
        assert(nd[k] == todo[k]);
        assert(stack[k] == old_stack[k]);
    };
    assert forall|k: int| 0 <= k < stack.len() implies (#[trigger] stack[k]).1 == targets[k].len() by {
        if k < stack.len() - 1 {
            assert(stack[k] == old_stack[k]);
        }
        assert(old_stack[k].1 == targets[k].len());
    };
}

/// The header of a non-empty array read at the top level: a new level opens.
proof fn lemma_open_step(
    old_stack: Seq<(Vec<Frame>, usize)>,
    stack: Seq<(Vec<Frame>, usize)>,
    targets: Seq<Seq<Value>>,
    todo: Seq<Seq<Value>>,
    v0: Value,
    pos: int,
    next: int,
)
    requires
        follows_target(old_stack, targets, todo, v0, enc(v0), pos),
        old_stack.len() >= 1,
        todo.last().len() > 0,
        opens(todo.last()[0]),
        wf(todo.last()[0]),
        enc(v0).subrange(pos, enc(v0).len() as int) == token(todo.last()[0])
            + enc_seq(crate::encode::children(todo.last()[0])) + enc_seq(todo.last().skip(1)) + owed(todo.drop_last()),
        next == pos + token(todo.last()[0]).len(),
        stack.len() == old_stack.len() + 1,
        forall|k: int| 0 <= k < old_stack.len() ==> stack[k] == old_stack[k],
        stack.last().1 == crate::encode::children(todo.last()[0]).len(),
        stack.last().0@.len() == 0,
    ensures
        follows_target(
            stack,
            targets.push(crate::encode::children(todo.last()[0])),
            todo.update(todo.len() - 1, todo.last().skip(1)).push(crate::encode::children(todo.last()[0])),
            v0,
            enc(v0),
            next,
        ),
{
    let t = enc(v0);
    let top = old_stack.len() - 1;
    let x = todo.last()[0];
    let cs = crate::encode::children(x);
    let nt = targets.push(cs);
    let nd = todo.update(top, todo.last().skip(1)).push(cs);
    lemma_wf_seq(cs);
    lemma_frame_views(stack.last().0@);
    assert(frame_views(stack.last().0@) =~= Seq::<Value>::empty());
    assert(x == Value::Array(Some(cs)));
    assert(todo.last() =~= seq![x] + nd[top]);
    assert(nt.last() =~= frame_views(stack.last().0@) + nd.last());
    assert(nd.drop_last().drop_last() =~= todo.drop_last());
    assert(owed(nd) =~= enc_seq(cs) + (enc_seq(nd[top]) + owed(todo.drop_last()))) by {
        assert(owed(nd.drop_last()) =~= enc_seq(nd[top]) + owed(todo.drop_last()));
    };
    assert(t.subrange(next, t.len() as int) =~= owed(nd)) by {
        assert(t.subrange(next, t.len() as int) =~= t.subrange(pos, t.len() as int).skip(token(x).len() as int));
    };
    assert forall|k: int, j: int| 0 <= k < nd.len() && 0 <= j < nd[k].len() implies wf(#[trigger] nd[k][j]) by {
        if k == top + 1 {
            assert(nd[k][j] == cs[j]);
        } else if k == top {
            assert(nd[k][j] == todo[k][j + 1]);
        } else {
            assert(nd[k] == todo[k]);
        }
    };
    assert forall|k: int| 0 <= k < stack.len() - 1 implies #[trigger] nt[k]
        == frame_views(stack[k].0@) + seq![Value::Array(Some(nt[k + 1]))] + nd[k] by {
        assert(stack[k] == old_stack[k]);
        if k < top {
            assert(nd[k] == todo[k]);
            assert(nt[k] == targets[k]);
            assert(nt[k + 1] == targets[k + 1]);
            assert(targets[k] == frame_views(old_stack[k].0@) + seq![Value::Array(Some(targets[k + 1]))] + todo[k]);
        } else {
            assert(targets.last() == frame_views(old_stack.last().0@) + todo.last());
            assert(targets[top] =~= frame_views(stack[k].0@) + seq![Value::Array(Some(nt[k + 1]))] + nd[k]);
        }
    };
    assert forall|k: int| 0 <= k < stack.len() implies (#[trigger] stack[k]).1 == nt[k].len() by {
        if k < stack.len() - 1 {
            assert(stack[k] == old_stack[k]);
            assert(old_stack[k].1 == targets[k].len());
        }
    };
}

/// Decodes the frame at the front of `buf`.
///
/// Every value that the buffer begins with the encoding of comes back whole,
/// with the number of bytes it took; a buffer that holds only the start of
/// such an encoding is incomplete. Only minimal encodings are accepted: what
/// comes back was read from exactly its own encoding.
#[verifier::rlimit(50)]
pub fn parse_frame(buf: &[u8]) -> (r: Result<Parsed, ReadError>)
    ensures
        forall|v: Value| wf(v) && comparable(buf@, v) && enc(v).len() <= buf@.len()
            ==> (r matches Ok(Parsed::Complete(f, n)) && f@ == v && n == enc(v).len()),
        forall|v: Value| wf(v) && comparable(buf@, v) && buf@.len() < enc(v).len()
            ==> r == Ok::<Parsed, ReadError>(Parsed::Incomplete),
        buf@.len() == 0 ==> r == Ok::<Parsed, ReadError>(Parsed::Incomplete),
        r matches Ok(Parsed::Complete(f, n)) ==> 0 < n <= buf@.len() && wf(f@) && buf@.subrange(0, n as int) == enc(f@),
        (buf@.len() > 0 && !is_prefix_byte(buf@[0])) ==> r == Err::<Parsed, ReadError>(ReadError::InvalidPrefix),
{
    let ghost tracking = exists|v: Value| wf(v) && comparable(buf@, v);
    let ghost v0 = choose|v: Value| wf(v) && comparable(buf@, v);
    let ghost t = enc(v0);
    let mut stack: Vec<(Vec<Frame>, usize)> = Vec::new();
    stack.push((Vec::new(), 1));
    let mut pos: usize = 0;
    let ghost mut targets: Seq<Seq<Value>> = seq![seq![v0]];
    let ghost mut todo: Seq<Seq<Value>> = seq![seq![v0]];
    proof {
        if tracking {
            lemma_start(stack@, v0);
        }
        lemma_frame_views(stack@[0].0@);
        assert(frame_views(stack@[0].0@) =~= Seq::<Value>::empty());
        assert(enc_seq(Seq::<Value>::empty()) =~= Seq::<u8>::empty());
        assert(buf@.subrange(0, 0) =~= consumed(stack@));
    }
    loop
        invariant
            pos <= buf@.len(),
            stack_ok(stack@),
            pos == 0 ==> stack@.len() == 1 && stack@[0].0@.len() == 0,
            pos > 0 ==> is_prefix_byte(buf@[0]),
            tracking ==> wf(v0) && comparable(buf@, v0) && t == enc(v0),
            tracking ==> follows_target(stack@, targets, todo, v0, t, pos as int),
            !tracking ==> forall|v: Value| !(wf(v) && comparable(buf@, v)),
            buf@.subrange(0, pos as int) == consumed(stack@),
            children_wf(stack@),
        decreases 2 * (buf@.len() - pos) + stack@.len(),
    {
        let ghost entry_len = stack@.len();
        loop
            invariant
                stack@.len() <= entry_len,
                pos <= buf@.len(),
                stack_ok(stack@),
                pos == 0 ==> stack@.len() == 1 && stack@[0].0@.len() == 0,
                pos > 0 ==> is_prefix_byte(buf@[0]),
                tracking ==> wf(v0) && comparable(buf@, v0) && t == enc(v0),
                tracking ==> follows_target(stack@, targets, todo, v0, t, pos as int),
                !tracking ==> forall|v: Value| !(wf(v) && comparable(buf@, v)),
                buf@.subrange(0, pos as int) == consumed(stack@),
                children_wf(stack@),
            !tracking ==> forall|v: Value| !(wf(v) && comparable(buf@, v)),
            ensures
                stack@.last().0@.len() < stack@.last().1,
            decreases stack@.len(),
        {
            let top = stack.len() - 1;
            if stack[top].0.len() < stack[top].1 {
                break;
            }
            let ghost old_stack = stack@;
            let (mut ch, need) = stack.pop().unwrap();
            if top == 0 {
                let f = ch.pop().unwrap();
                proof {
                    lemma_frame_views(ch@.push(f));
                    assert(ch@.push(f) == old_stack[0].0@);
                    assert(wf(old_stack[0].0@[0]@));
                    assert(frame_views(old_stack[0].0@) =~= seq![f@]);
                    assert(seq![f@].drop_last() =~= Seq::<Value>::empty());
                    assert(enc_seq(Seq::<Value>::empty()) =~= Seq::<u8>::empty());
                    assert(enc_seq(seq![f@]) =~= enc(f@));
                    if tracking {
                        lemma_finish(old_stack, targets, todo, v0, t, pos as int);
                        assert(ch@.push(f) == old_stack[0].0@);
                        assert(frame_views(old_stack[0].0@)[0] == f@);
                        assert forall|v: Value| wf(v) && comparable(buf@, v) && enc(v).len() <= buf@.len()
                            implies v == v0 by {
                            lemma_comparable_unique(buf@, v, v0);
                        };
                        assert forall|v: Value| wf(v) && comparable(buf@, v) implies enc(v).len() <= buf@.len() by {
                            lemma_comparable_unique(buf@, v0, v);
                        };
                    }
                }
                return Ok(Parsed::Complete(f, pos));
            }
            let (mut pch, pneed) = stack.pop().unwrap();
            let ghost old_pch = pch@;
            let ghost inner = Frame::Array(Some(ch));
            pch.push(Frame::Array(Some(ch)));
            stack.push((pch, pneed));
            proof {
                assert(stack@.drop_last() =~= old_stack.drop_last().drop_last());
                assert forall|k: int| 0 <= k < stack@.len() - 1 implies stack@[k] == old_stack[k] by {
                    assert(stack@[k] == stack@.drop_last()[k]);
                };
                assert(old_pch.push(inner).drop_last() =~= old_pch);
                assert(frame_views(old_pch.push(inner)) == frame_views(old_pch).push(inner@));
                assert(stack@ =~= old_stack.drop_last().drop_last().push(stack@.last()));
                lemma_consumed_fold(old_stack, stack@.last());
                lemma_frame_views(old_stack.last().0@);
                assert(wf(inner@)) by {
                    lemma_wf_seq(frame_views(old_stack.last().0@));
                };
                assert(children_wf(stack@)) by {
                    assert forall|k: int, j: int| 0 <= k < stack@.len() && 0 <= j < stack@[k].0@.len()
                        implies wf(#[trigger] stack@[k].0@[j]@) by {
                        if k < stack@.len() - 1 {
                            assert(stack@[k] == old_stack[k]);
                        } else if j < old_pch.len() {
                            assert(stack@[k].0@[j] == old_pch[j]);
                            assert(old_pch == old_stack[k].0@);
                        }
                    };
                };
                if tracking {
                    lemma_fold(old_stack, stack@, targets, todo, v0, t, pos as int);
                    targets = targets.drop_last();
                    todo = todo.drop_last();
                }
            }
        }
        let top = stack.len() - 1;
        let ghost x = if tracking { todo.last()[0] } else { Value::Null };
        proof {
            if tracking {
                lemma_next(buf@, stack@, targets, todo, v0, pos as int);
            }
        }
        let ghost gx = if tracking { Some(x) } else { None };
        let step = parse_token(buf, pos, Ghost(gx));
        match step {
            Err(e) => {
                return Err(e);
            },
            Ok(Token::Short) => {
                proof {
                    if tracking {
                        assert(t.subrange(pos as int, t.len() as int).len() >= token(x).len());
                        assert forall|v: Value| wf(v) && comparable(buf@, v) implies buf@.len() < enc(v).len() by {
                            if enc(v).len() <= buf@.len() {
                                lemma_comparable_unique(buf@, v, v0);
                            }
                        };
                    }
                }
                return Ok(Parsed::Incomplete);
            },
            Ok(Token::Frame(f, next)) => {
                let ghost old_stack = stack@;
                let (mut ch, need) = stack.pop().unwrap();
                let ghost old_ch = ch@;
                ch.push(f);
                stack.push((ch, need));
                proof {
                    assert(stack@.drop_last() =~= old_stack.drop_last());
                    assert forall|k: int| 0 <= k < stack@.len() - 1 implies stack@[k] == old_stack[k] by {
                        assert(stack@[k] == stack@.drop_last()[k]);
                    };
                    assert(old_ch.push(f).drop_last() =~= old_ch);
                    assert(frame_views(old_ch.push(f)) == frame_views(old_ch).push(f@));
                    assert(stack@ =~= old_stack.drop_last().push(stack@.last()));
                    lemma_consumed_child(old_stack, stack@.last(), f@);
                    assert(buf@.subrange(0, next as int) =~= buf@.subrange(0, pos as int) + buf@.subrange(pos as int, next as int));
                    if tracking {
                        assert((if opens(x) { enc_seq(crate::encode::children(x)) } else { Seq::<u8>::empty() }) =~= Seq::<u8>::empty());
                        assert(token(x) + Seq::<u8>::empty() =~= token(x));
                        lemma_frame_step(old_stack, stack@, targets, todo, v0, pos as int, next as int);
                        todo = todo.update(todo.len() - 1, todo.last().skip(1));
                    }
                }
                pos = next;
            },
            Ok(Token::Open(n, next)) => {
                let ghost old_stack = stack@;
                stack.push((Vec::new(), n));
                proof {
                    assert forall|k: int| 0 <= k < old_stack.len() implies stack@[k] == old_stack[k] by {};
                    assert(stack@ =~= old_stack.push(stack@.last()));
                    lemma_consumed_open(old_stack, stack@.last());
                    assert(buf@.subrange(0, next as int) =~= buf@.subrange(0, pos as int) + buf@.subrange(pos as int, next as int));
                    if tracking {
                        lemma_open_step(old_stack, stack@, targets, todo, v0, pos as int, next as int);
                        let cs = crate::encode::children(x);
                        targets = targets.push(cs);
                        todo = todo.update(todo.len() - 1, todo.last().skip(1)).push(cs);
                    }
                }
                pos = next;
            },
        }
    }
}

} // verus!

verus! {

#[verifier::external_type_specification]
#[verifier::external_body]
pub struct ExBytesMut(bytes::BytesMut);

/// The bytes that a `BytesMut` holds.
pub uninterp spec fn buffer_bytes(b: bytes::BytesMut) -> Seq<u8>;

/// Relies on `BytesMut::with_capacity`: the new buffer holds no bytes.
#[verifier::external_body]
fn buffer_with_capacity(capacity: usize) -> (r: bytes::BytesMut)
    ensures
        buffer_bytes(r).len() == 0,
{
    bytes::BytesMut::with_capacity(capacity)
}

/// Relies on `BytesMut::extend_from_slice`: the slice's bytes are appended; it
/// panics only when the length would pass `isize::MAX`.
#[verifier::external_body]
fn buffer_extend(b: &mut bytes::BytesMut, data: &[u8])
    requires
        buffer_bytes(*old(b)).len() + data@.len() <= isize::MAX,
    ensures
        buffer_bytes(*final(b)) == buffer_bytes(*old(b)) + data@,
{
    b.extend_from_slice(data)
}

/// Relies on `BytesMut`'s `AsRef<[u8]>`: the slice is the buffer's contents.
#[verifier::external_body]
fn buffer_slice(b: &bytes::BytesMut) -> (r: &[u8])
    ensures
        r@ == buffer_bytes(*b),
{
    b.as_ref()
}

/// Relies on `Buf::advance` for `BytesMut`: the first `n` bytes are dropped
/// without moving the rest; it panics when `n` passes the length.
#[verifier::external_body]
fn buffer_advance(b: &mut bytes::BytesMut, n: usize)
    requires
        n <= buffer_bytes(*old(b)).len(),
    ensures
        buffer_bytes(*final(b)) == buffer_bytes(*old(b)).skip(n as int),
{
    bytes::Buf::advance(b, n)
}

/// The room a decoder's buffer starts with.
pub const DEFAULT_BUF_SIZE: usize = 4096;

/// The read side of a connection: bytes received but not yet decoded.
pub struct Decoder {
    pub buffered: bytes::BytesMut,
}

impl Decoder {
    pub open spec fn view(&self) -> Seq<u8> {
        buffer_bytes(self.buffered)
    }

    /// A decoder with nothing buffered and room for `DEFAULT_BUF_SIZE` bytes.
    pub fn new() -> (r: Decoder)
        ensures
            r@.len() == 0,
    {
        Decoder::with_capacity(DEFAULT_BUF_SIZE)
    }

    /// A decoder with nothing buffered and room for `capacity` bytes.
    pub fn with_capacity(capacity: usize) -> (r: Decoder)
        ensures
            r@.len() == 0,
    {
        Decoder { buffered: buffer_with_capacity(capacity) }
    }

    /// Appends bytes that arrived from the stream.
    pub fn push_bytes(&mut self, data: &[u8])
        requires
            old(self)@.len() + data@.len() <= isize::MAX,
        ensures
            final(self)@ == old(self)@ + data@,
    {
        buffer_extend(&mut self.buffered, data);
    }

    /// Takes the next whole frame off the front of the buffer.
    ///
    /// `Ok(None)` means that more bytes are needed; the buffer is then left as it was.
    pub fn next_frame(&mut self) -> (r: Result<Option<Frame>, ReadError>)
        ensures
            forall|v: Value| wf(v) && comparable(old(self)@, v) && enc(v).len() <= old(self)@.len()
                ==> (r matches Ok(Some(f)) && f@ == v
                    && final(self)@ == old(self)@.skip(enc(v).len() as int)),
            forall|v: Value| wf(v) && comparable(old(self)@, v) && old(self)@.len() < enc(v).len()
                ==> r == Ok::<Option<Frame>, ReadError>(None),
            match r {
                Ok(Some(f)) => wf(f@) && enc(f@).len() <= old(self)@.len()
                    && old(self)@.take(enc(f@).len() as int) == enc(f@)
                    && final(self)@ == old(self)@.skip(enc(f@).len() as int),
                _ => final(self)@ == old(self)@,
            },
            old(self)@.len() == 0 ==> r == Ok::<Option<Frame>, ReadError>(None),
            (old(self)@.len() > 0 && !is_prefix_byte(old(self)@[0]))
                ==> r == Err::<Option<Frame>, ReadError>(ReadError::InvalidPrefix),
    {
        match parse_frame(buffer_slice(&self.buffered)) {
            Ok(Parsed::Complete(f, n)) => {
                assert(old(self)@.take(n as int) =~= old(self)@.subrange(0, n as int));
                buffer_advance(&mut self.buffered, n);
                Ok(Some(f))
            },
            Ok(Parsed::Incomplete) => Ok(None),
            Err(e) => Err(e),
        }
    }

    /// What the stream's end means here: a clean end between frames, or a frame
    /// cut short.
    pub fn end_of_stream(&self) -> (r: Result<Option<Frame>, ReadError>)
        ensures
            self@.len() == 0 ==> r == Ok::<Option<Frame>, ReadError>(None),
            self@.len() > 0 ==> r == Err::<Option<Frame>, ReadError>(ReadError::UnexpectedEof),
    {
        if buffer_slice(&self.buffered).len() == 0 {
            Ok(None)
        } else {
            Err(ReadError::UnexpectedEof)
        }
    }
}

} // verus!

verus! {

/// Round trip: the encoding of a well-formed value, followed by anything,
/// meets the condition under which `parse_frame` and `Decoder::next_frame`
/// return that very value and consume exactly its encoding.
pub proof fn law_round_trip(v: Value, rest: Seq<u8>)
    requires
        wf(v),
    ensures
        comparable(enc(v) + rest, v),
        enc(v).len() <= (enc(v) + rest).len(),
        (enc(v) + rest).skip(enc(v).len() as int) == rest,
{
    assert((enc(v) + rest).skip(enc(v).len() as int) =~= rest);
}

/// Incremental decoding: any proper prefix of an encoding is reported as
/// incomplete (and left buffered); once the rest arrives the value decodes.
pub proof fn law_split(v: Value, i: int)
    requires
        wf(v),
        0 <= i < enc(v).len(),
    ensures
        comparable(enc(v).take(i), v),
        enc(v).take(i).len() < enc(v).len(),
        enc(v).take(i) + enc(v).skip(i) == enc(v),
{
    assert(enc(v).take(i) + enc(v).skip(i) =~= enc(v));
}

/// A stream of several encodings decodes one value at a time, in order:
/// the first value comes off the front and leaves the encodings of the others.
pub proof fn law_stream(vs: Seq<Value>)
    requires
        vs.len() > 0,
        forall|i: int| 0 <= i < vs.len() ==> wf(#[trigger] vs[i]),
    ensures
        comparable(enc_seq(vs), vs[0]),
        enc(vs[0]).len() <= enc_seq(vs).len(),
        enc_seq(vs).skip(enc(vs[0]).len() as int) == enc_seq(vs.skip(1)),
{
    lemma_enc_seq_first(vs);
    assert(enc_seq(vs).skip(enc(vs[0]).len() as int) =~= enc_seq(vs.skip(1)));
}

/// End of stream: a non-empty proper prefix of an encoding is neither a frame
/// nor a clean end, so the stream's end there is an error.
pub proof fn law_dirty_end(v: Value, i: int)
    requires
        wf(v),
        0 < i < enc(v).len(),
    ensures
        comparable(enc(v).take(i), v),
        enc(v).take(i).len() > 0,
        enc(v).take(i).len() < enc(v).len(),
{
}

} // verus!
