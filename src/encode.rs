//! Serialization of frames, without recursion over the nesting depth.
use vstd::prelude::*;
use crate::frame::{Frame, Value, frame_views, lemma_frame_views};
use crate::wire::{CR, LF, crlf, dec_int, dec_nat, enc, enc_seq, lemma_enc_seq_first, line, minus_one};

verus! {

/// What a frame writes before its children: the whole frame for a scalar,
/// the header line for an array.
pub open spec fn head(v: Value) -> Seq<u8> {
    match v {
        Value::Array(Some(s)) => line(42, dec_nat(s.len())),
        _ => enc(v),
    }
}

pub open spec fn children(v: Value) -> Seq<Value> {
    match v {
        Value::Array(Some(s)) => s,
        _ => Seq::empty(),
    }
}

proof fn lemma_head_children(v: Value)
    ensures
        enc(v) == head(v) + enc_seq(children(v)),
        head(v).len() >= 3,
{
    assert(enc_seq(Seq::<Value>::empty()) =~= Seq::<u8>::empty());
    match v {
        Value::Array(Some(s)) => {},
        _ => {
            assert(enc(v) + Seq::<u8>::empty() =~= enc(v));
        },
    }
}

/// The bytes still owed by a stack of array cursors, innermost first.
pub open spec fn pending(stack: Seq<(&Vec<Frame>, usize)>) -> Seq<u8>
    decreases stack.len(),
{
    if stack.len() == 0 {
        Seq::empty()
    } else {
        let (v, i) = stack.last();
        enc_seq(frame_views(v@).skip(i as int)) + pending(stack.drop_last())
    }
}

fn write_bytes(out: &mut Vec<u8>, d: &[u8])
    ensures
        final(out)@ == old(out)@ + d@,
{
    let mut i: usize = 0;
    while i < d.len()
        invariant
            i <= d@.len(),
            out@ == old(out)@ + d@.take(i as int),
        decreases d@.len() - i,
    {
        out.push(d[i]);
        i = i + 1;
        assert(d@.take(i as int) =~= d@.take(i - 1).push(d@[i - 1]));
    }
    assert(d@.take(d@.len() as int) =~= d@);
}

fn write_nat(out: &mut Vec<u8>, n: u64)
    ensures
        final(out)@ == old(out)@ + dec_nat(n as nat),
    decreases n,
{
    if n >= 10 {
        write_nat(out, n / 10);
    }
    out.push((n % 10 + 48) as u8);
    assert(out@ =~= old(out)@ + dec_nat(n as nat));
}

fn write_int(out: &mut Vec<u8>, i: i64)
    ensures
        final(out)@ == old(out)@ + dec_int(i as int),
{
    if i < 0 {
        out.push(45u8);
        let m: u64 = (-(i as i128)) as u64;
        write_nat(out, m);
    } else {
        write_nat(out, i as u64);
    }
    assert(out@ =~= old(out)@ + dec_int(i as int));
}

fn write_crlf(out: &mut Vec<u8>)
    ensures
        final(out)@ == old(out)@ + crlf(),
{
    out.push(CR);
    out.push(LF);
    assert(out@ =~= old(out)@ + crlf());
}

fn write_minus_one(out: &mut Vec<u8>)
    ensures
        final(out)@ == old(out)@ + minus_one(),
{
    out.push(45u8);
    out.push(49u8);
    assert(out@ =~= old(out)@ + minus_one());
}

/// Writes what `frame` writes before its children.
fn write_head(out: &mut Vec<u8>, frame: &Frame)
    ensures
        final(out)@ == old(out)@ + head(frame@),
{
    out.push(frame.prefix());
    match frame {
        Frame::Array(None) => write_minus_one(out),
        Frame::Array(Some(v)) => {
            proof { lemma_frame_views(v@); }
            write_nat(out, v.len() as u64);
        },
        Frame::Boolean(b) => out.push(if *b { 116u8 } else { 102u8 }),
        Frame::Bulk(None) => write_minus_one(out),
        Frame::Bulk(Some(d)) => {
            write_nat(out, d.len() as u64);
            write_crlf(out);
            write_bytes(out, d.as_slice());
        },
        Frame::Error(d) => write_bytes(out, d.as_slice()),
        Frame::Integer(i) => write_int(out, *i),
        Frame::Null => {},
        Frame::String(d) => write_bytes(out, d.as_slice()),
    }
    write_crlf(out);
    assert(out@ =~= old(out)@ + head(frame@));
}

/// Appends the RESP serialization of `frame` to `out`.
pub fn encode_into(frame: &Frame, out: &mut Vec<u8>)
    ensures
        final(out)@ == old(out)@ + enc(frame@),
{
    let ghost start = out@;
    proof { lemma_head_children(frame@); }
    write_head(out, frame);
    let mut stack: Vec<(&Vec<Frame>, usize)> = Vec::new();
    assert(pending(stack@) =~= Seq::<u8>::empty());
    if let Frame::Array(Some(v)) = frame {
        stack.push((v, 0));
        assert(frame_views(v@).skip(0) =~= frame_views(v@));
        assert(stack@.drop_last() =~= Seq::<(&Vec<Frame>, usize)>::empty());
        assert(pending(stack@.drop_last()) =~= Seq::<u8>::empty());
    } else {
        assert(enc_seq(Seq::<Value>::empty()) =~= Seq::<u8>::empty());
    }
    assert(start + enc(frame@) =~= out@ + pending(stack@));
    while stack.len() > 0
        invariant
            start + enc(frame@) == out@ + pending(stack@),
            forall|k: int| 0 <= k < stack@.len() ==> #[trigger] stack@[k].1 <= stack@[k].0@.len(),
        decreases (start + enc(frame@)).len() - out@.len() + stack@.len(),
    {
        let top = stack.len() - 1;
        let (v, i) = stack[top];
        let ghost below = stack@.drop_last();
        proof { lemma_frame_views(v@); }
        if i == v.len() {
            assert(frame_views(v@).skip(i as int) =~= Seq::<Value>::empty());
            assert(enc_seq(Seq::<Value>::empty()) =~= Seq::<u8>::empty());
            stack.pop();
            assert(stack@ =~= below);
            assert(pending(stack@.push((v, i))) =~= pending(stack@)) by {
                assert(stack@.push((v, i)).drop_last() =~= stack@);
            };
        } else {
            let child = &v[i];
            let ghost rest = frame_views(v@).skip(i as int);
            proof {
                lemma_enc_seq_first(rest);
                assert(rest[0] == child@);
                assert(rest.skip(1) =~= frame_views(v@).skip(i + 1));
                lemma_head_children(child@);
            }
            stack.set(top, (v, i + 1));
            assert(stack@.drop_last() =~= below);
            let ghost mid = pending(stack@);
            assert(mid == enc_seq(frame_views(v@).skip(i + 1)) + pending(below));
            let ghost s1 = stack@;
            write_head(out, child);
            if let Frame::Array(Some(w)) = child {
                stack.push((w, 0));
                assert(frame_views(w@).skip(0) =~= frame_views(w@));
                assert(stack@.drop_last() =~= s1);
                assert(stack@.last() == (w, 0usize));
                assert(pending(stack@) == enc_seq(frame_views(w@)) + mid);
                assert(children(child@) == frame_views(w@));
            } else {
                assert(children(child@) =~= Seq::<Value>::empty());
                assert(enc_seq(children(child@)) =~= Seq::<u8>::empty());
            }
            assert(start + enc(frame@) =~= out@ + pending(stack@));
        }
    }
    assert(pending(stack@) =~= Seq::<u8>::empty());
    assert(out@ =~= start + enc(frame@));
}

/// The RESP serialization of `frame`.
pub fn encode(frame: &Frame) -> (r: Vec<u8>)
    ensures
        r@ == enc(frame@),
{
    let mut out: Vec<u8> = Vec::new();
    encode_into(frame, &mut out);
    assert(out@ =~= enc(frame@));
    out
}

} // verus!
