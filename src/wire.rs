//! The RESP wire format, stated as spec functions over frame values.
use vstd::prelude::*;
use crate::frame::Value;

verus! {

pub const CR: u8 = 13;
pub const LF: u8 = 10;

pub open spec fn crlf() -> Seq<u8> {
    seq![CR, LF]
}

pub open spec fn is_digit(c: u8) -> bool {
    48 <= c <= 57
}

/// Minimal decimal digits of a natural number.
pub open spec fn dec_nat(n: nat) -> Seq<u8>
    decreases n,
{
    if n < 10 {
        seq![(n + 48) as u8]
    } else {
        dec_nat(n / 10).push((n % 10 + 48) as u8)
    }
}

/// Minimal decimal form of an integer, with a leading `-` when negative.
pub open spec fn dec_int(i: int) -> Seq<u8> {
    if i < 0 {
        seq![45u8] + dec_nat((-i) as nat)
    } else {
        dec_nat(i as nat)
    }
}

/// The header text of a null bulk or null array.
pub open spec fn minus_one() -> Seq<u8> {
    seq![45u8, 49u8]
}

/// One header line: the prefix byte, its text, and CR LF.
pub open spec fn line(p: u8, body: Seq<u8>) -> Seq<u8> {
    seq![p] + body + crlf()
}

/// The one-byte prefix of each variant.
pub open spec fn prefix_of(v: Value) -> u8 {
    match v {
        Value::Array(_) => 42,
        Value::Boolean(_) => 35,
        Value::Bulk(_) => 36,
        Value::Error(_) => 45,
        Value::Integer(_) => 58,
        Value::Null => 95,
        Value::String(_) => 43,
    }
}

/// The RESP serialization of a value.
pub open spec fn enc(v: Value) -> Seq<u8>
    decreases v,
{
    match v {
        Value::Array(None) => line(42, minus_one()),
        Value::Array(Some(s)) => line(42, dec_nat(s.len())) + enc_seq(s),
        Value::Boolean(b) => line(35, seq![if b { 116u8 } else { 102u8 }]),
        Value::Bulk(None) => line(36, minus_one()),
        Value::Bulk(Some(d)) => line(36, dec_nat(d.len())) + d + crlf(),
        Value::Error(d) => line(45, d),
        Value::Integer(i) => line(58, dec_int(i)),
        Value::Null => line(95, Seq::empty()),
        Value::String(d) => line(43, d),
    }
}

/// The serializations of a sequence of values, one after another.
pub open spec fn enc_seq(s: Seq<Value>) -> Seq<u8>
    decreases s,
{
    if s.len() == 0 {
        Seq::empty()
    } else {
        enc_seq(s.drop_last()) + enc(s.last())
    }
}

/// Text that can stand in a simple string or error line.
pub open spec fn is_text(d: Seq<u8>) -> bool {
    forall|i: int| 0 <= i < d.len() ==> d[i] != CR && d[i] != LF
}

/// A value that the wire format can carry: simple strings hold no CR or LF,
/// integers fit in 64 bits, lengths fit in a `usize`.
pub open spec fn wf(v: Value) -> bool
    decreases v,
{
    match v {
        Value::Array(Some(s)) => s.len() <= usize::MAX && wf_seq(s),
        Value::Bulk(Some(d)) => d.len() <= usize::MAX,
        Value::Error(d) => is_text(d),
        Value::String(d) => is_text(d),
        Value::Integer(i) => i64::MIN <= i <= i64::MAX,
        _ => true,
    }
}

pub open spec fn wf_seq(s: Seq<Value>) -> bool
    decreases s,
{
    if s.len() == 0 {
        true
    } else {
        wf_seq(s.drop_last()) && wf(s.last())
    }
}

} // verus!

verus! {

pub proof fn lemma_enc_seq_append(a: Seq<Value>, b: Seq<Value>)
    ensures
        enc_seq(a + b) == enc_seq(a) + enc_seq(b),
    decreases b.len(),
{
    if b.len() == 0 {
        assert(a + b =~= a);
        assert(enc_seq(b) =~= Seq::<u8>::empty());
        assert(enc_seq(a) + enc_seq(b) =~= enc_seq(a));
    } else {
        assert((a + b).drop_last() =~= a + b.drop_last());
        assert((a + b).last() == b.last());
        lemma_enc_seq_append(a, b.drop_last());
        assert(enc_seq(a + b) =~= enc_seq(a) + enc_seq(b));
    }
}

/// The serialization of a non-empty sequence starts with that of its first element.
pub proof fn lemma_enc_seq_first(s: Seq<Value>)
    requires
        s.len() > 0,
    ensures
        enc_seq(s) == enc(s[0]) + enc_seq(s.skip(1)),
{
    let a = seq![s[0]];
    assert(s =~= a + s.skip(1));
    lemma_enc_seq_append(a, s.skip(1));
    assert(a.drop_last() =~= Seq::<Value>::empty());
    assert(enc_seq(a.drop_last()) =~= Seq::<u8>::empty());
    assert(a.last() == s[0]);
    assert(enc_seq(a) =~= enc(s[0]));
}

} // verus!

verus! {

pub open spec fn no_cr(s: Seq<u8>) -> bool {
    forall|i: int| 0 <= i < s.len() ==> s[i] != CR
}

/// The text of a value's first line, between its prefix and CR LF.
pub open spec fn header_text(v: Value) -> Seq<u8> {
    match v {
        Value::Array(None) => minus_one(),
        Value::Array(Some(s)) => dec_nat(s.len()),
        Value::Boolean(b) => seq![if b { 116u8 } else { 102u8 }],
        Value::Bulk(None) => minus_one(),
        Value::Bulk(Some(d)) => dec_nat(d.len()),
        Value::Error(d) => d,
        Value::Integer(i) => dec_int(i),
        Value::Null => Seq::empty(),
        Value::String(d) => d,
    }
}

/// What follows a value's first line.
pub open spec fn body_of(v: Value) -> Seq<u8> {
    match v {
        Value::Array(Some(s)) => enc_seq(s),
        Value::Bulk(Some(d)) => d + crlf(),
        _ => Seq::empty(),
    }
}

pub proof fn lemma_wf_seq(s: Seq<Value>)
    ensures
        wf_seq(s) <==> forall|i: int| 0 <= i < s.len() ==> wf(#[trigger] s[i]),
    decreases s.len(),
{
    if s.len() > 0 {
        lemma_wf_seq(s.drop_last());
        if wf_seq(s) {
            assert forall|i: int| 0 <= i < s.len() implies wf(#[trigger] s[i]) by {
                if i < s.len() - 1 {
                    assert(s[i] == s.drop_last()[i]);
                }
            };
        }
        if forall|i: int| 0 <= i < s.len() ==> wf(#[trigger] s[i]) {
            assert forall|i: int| 0 <= i < s.drop_last().len() implies wf(#[trigger] s.drop_last()[i]) by {
                assert(s[i] == s.drop_last()[i]);
            };
        }
    }
}

pub proof fn lemma_enc_shape(v: Value)
    ensures
        enc(v) == line(prefix_of(v), header_text(v)) + body_of(v),
        wf(v) ==> no_cr(header_text(v)),
        header_text(v).len() >= 1 ==> (header_text(v)[0] == 45 <==> (v matches Value::Array(None) || v matches Value::Bulk(None) || (v matches Value::Integer(i) && i < 0) || (v matches Value::Error(d) && d[0] == 45) || (v matches Value::String(d) && d[0] == 45))),
{
    assert(enc(v) + Seq::<u8>::empty() =~= enc(v));
    crate::digits::lemma_dec_nat_shape(0);
    match v {
        Value::Array(Some(s)) => crate::digits::lemma_dec_nat_shape(s.len()),
        Value::Bulk(Some(d)) => {
            crate::digits::lemma_dec_nat_shape(d.len());
            assert(enc(v) =~= line(prefix_of(v), header_text(v)) + body_of(v));
        },
        Value::Integer(i) => {
            crate::digits::lemma_dec_nat_shape(i as nat);
            crate::digits::lemma_dec_nat_shape((-i) as nat);
        },
        _ => {},
    }
}

proof fn lemma_line_split(p1: u8, b1: Seq<u8>, r1: Seq<u8>, p2: u8, b2: Seq<u8>, r2: Seq<u8>)
    requires
        line(p1, b1) + r1 == line(p2, b2) + r2,
        no_cr(b1),
        no_cr(b2),
    ensures
        p1 == p2,
        b1 == b2,
        r1 == r2,
{
    let l = line(p1, b1) + r1;
    assert(l[0] == p1);
    assert((line(p2, b2) + r2)[0] == p2);
    if b1.len() < b2.len() {
        assert(l[1 + b1.len() as int] == CR);
        assert((line(p2, b2) + r2)[1 + b1.len() as int] == b2[b1.len() as int]);
    } else if b2.len() < b1.len() {
        assert((line(p2, b2) + r2)[1 + b2.len() as int] == CR);
        assert(l[1 + b2.len() as int] == b1[b2.len() as int]);
    } else {
        assert forall|i: int| 0 <= i < b1.len() implies b1[i] == b2[i] by {
            assert(l[1 + i] == b1[i]);
            assert((line(p2, b2) + r2)[1 + i] == b2[i]);
        };
        assert(b1 =~= b2);
        assert(r1 =~= l.skip(b1.len() as int + 3));
        assert(r2 =~= (line(p2, b2) + r2).skip(b2.len() as int + 3));
    }
}

/// No serialization of a well-formed value is a proper prefix of another's:
/// a byte stream starts with the encoding of at most one value.
pub proof fn lemma_enc_prefix_free(v1: Value, v2: Value, r1: Seq<u8>, r2: Seq<u8>)
    requires
        wf(v1),
        wf(v2),
        enc(v1) + r1 == enc(v2) + r2,
    ensures
        v1 == v2,
        r1 == r2,
    decreases v1,
{
    lemma_enc_shape(v1);
    lemma_enc_shape(v2);
    let h1 = header_text(v1);
    let h2 = header_text(v2);
    assert(line(prefix_of(v1), h1) + (body_of(v1) + r1) == line(prefix_of(v2), h2) + (body_of(v2) + r2)) by {
        assert(enc(v1) + r1 =~= line(prefix_of(v1), h1) + (body_of(v1) + r1));
        assert(enc(v2) + r2 =~= line(prefix_of(v2), h2) + (body_of(v2) + r2));
    };
    lemma_line_split(prefix_of(v1), h1, body_of(v1) + r1, prefix_of(v2), h2, body_of(v2) + r2);
    crate::digits::lemma_dec_nat_shape(0);
    match (v1, v2) {
        (Value::Array(Some(s1)), Value::Array(Some(s2))) => {
            crate::digits::lemma_dec_nat_injective(s1.len(), s2.len());
            lemma_wf_seq(s1);
            lemma_wf_seq(s2);
            lemma_enc_seq_prefix_free(s1, s2, r1, r2);
        },
        (Value::Array(Some(s1)), Value::Array(None)) => {
            crate::digits::lemma_dec_nat_shape(s1.len());
            assert(h1[0] != h2[0]);
        },
        (Value::Array(None), Value::Array(Some(s2))) => {
            crate::digits::lemma_dec_nat_shape(s2.len());
            assert(h1[0] != h2[0]);
        },
        (Value::Bulk(Some(d1)), Value::Bulk(Some(d2))) => {
            crate::digits::lemma_dec_nat_injective(d1.len(), d2.len());
            assert(d1 =~= (body_of(v1) + r1).take(d1.len() as int));
            assert(d2 =~= (body_of(v2) + r2).take(d2.len() as int));
            assert(r1 =~= (body_of(v1) + r1).skip(d1.len() as int + 2));
            assert(r2 =~= (body_of(v2) + r2).skip(d2.len() as int + 2));
        },
        (Value::Bulk(Some(d1)), Value::Bulk(None)) => {
            crate::digits::lemma_dec_nat_shape(d1.len());
            assert(h1[0] != h2[0]);
        },
        (Value::Bulk(None), Value::Bulk(Some(d2))) => {
            crate::digits::lemma_dec_nat_shape(d2.len());
            assert(h1[0] != h2[0]);
        },
        (Value::Integer(i1), Value::Integer(i2)) => {
            crate::digits::lemma_dec_int_injective(i1, i2);
        },
        (Value::Boolean(b1), Value::Boolean(b2)) => {
            assert(h1[0] == h2[0]);
        },
        _ => {
            assert(r1 =~= body_of(v1) + r1);
            assert(r2 =~= body_of(v2) + r2);
        },
    }
}

pub proof fn lemma_enc_seq_prefix_free(s1: Seq<Value>, s2: Seq<Value>, r1: Seq<u8>, r2: Seq<u8>)
    requires
        forall|i: int| 0 <= i < s1.len() ==> wf(#[trigger] s1[i]),
        forall|i: int| 0 <= i < s2.len() ==> wf(#[trigger] s2[i]),
        s1.len() == s2.len(),
        enc_seq(s1) + r1 == enc_seq(s2) + r2,
    ensures
        s1 == s2,
        r1 == r2,
    decreases s1,
{
    if s1.len() == 0 {
        assert(enc_seq(s1) =~= Seq::<u8>::empty());
        assert(enc_seq(s2) =~= Seq::<u8>::empty());
        assert(s1 =~= s2);
        assert(r1 =~= enc_seq(s1) + r1);
        assert(r2 =~= enc_seq(s2) + r2);
    } else {
        lemma_enc_seq_first(s1);
        lemma_enc_seq_first(s2);
        assert(enc(s1[0]) + (enc_seq(s1.skip(1)) + r1) == enc(s2[0]) + (enc_seq(s2.skip(1)) + r2)) by {
            assert(enc_seq(s1) + r1 =~= enc(s1[0]) + (enc_seq(s1.skip(1)) + r1));
            assert(enc_seq(s2) + r2 =~= enc(s2[0]) + (enc_seq(s2.skip(1)) + r2));
        };
        lemma_enc_prefix_free(s1[0], s2[0], enc_seq(s1.skip(1)) + r1, enc_seq(s2.skip(1)) + r2);
        lemma_enc_seq_prefix_free(s1.skip(1), s2.skip(1), r1, r2);
        assert(s1 =~= seq![s1[0]] + s1.skip(1));
        assert(s2 =~= seq![s2[0]] + s2.skip(1));
    }
}

} // verus!
