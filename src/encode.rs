//! The encoder: each frame to its exact bytes.
use vstd::prelude::*;
use crate::frame::{
    RespFrame, Value, SimpleString, SimpleError, BulkString, RespArray, RespNull, RespNullArray,
    RespNullBulkString, RespMap, RespSet,
};
use crate::double::{RespDouble, write_double};
use crate::number::{write_nat, write_int};
use crate::wire::{encode_value, encode_seq, encode_entries, line, crlf};

verus! {

/// Turns a frame into its bytes on the wire.
pub trait RespEncoder: Sized {
    spec fn encoding(&self) -> Seq<u8>;

    fn encode(self) -> (r: Vec<u8>)
        ensures
            r@ == self.encoding(),
    ;
}

pub proof fn lemma_encode_seq_push(xs: Seq<Value>, x: Value)
    ensures
        encode_seq(xs.push(x)) == encode_seq(xs) + encode_value(x),
    decreases xs.len(),
{
    if xs.len() == 0 {
        assert(xs.push(x).drop_first() =~= Seq::<Value>::empty());
        assert(encode_seq(Seq::<Value>::empty()) == Seq::<u8>::empty());
        assert(encode_seq(xs) == Seq::<u8>::empty());
        assert(encode_seq(xs.push(x)) =~= encode_value(x));
    } else {
        assert(xs.push(x).drop_first() =~= xs.drop_first().push(x));
        lemma_encode_seq_push(xs.drop_first(), x);
        assert(encode_seq(xs.push(x)) =~= encode_seq(xs) + encode_value(x));
    }
}

pub proof fn lemma_encode_entries_push(es: Seq<(Seq<char>, Value)>, x: (Seq<char>, Value))
    ensures
        encode_entries(es.push(x)) == encode_entries(es) + line(43u8, vstd::utf8::encode_utf8(x.0))
            + encode_value(x.1),
    decreases es.len(),
{
    if es.len() == 0 {
        assert(es.push(x).drop_first() =~= Seq::<(Seq<char>, Value)>::empty());
        assert(encode_entries(Seq::<(Seq<char>, Value)>::empty()) == Seq::<u8>::empty());
        assert(encode_entries(es) == Seq::<u8>::empty());
        assert(encode_entries(es.push(x)) =~= line(43u8, vstd::utf8::encode_utf8(x.0)) + encode_value(x.1));
    } else {
        assert(es.push(x).drop_first() =~= es.drop_first().push(x));
        lemma_encode_entries_push(es.drop_first(), x);
        assert(encode_entries(es.push(x)) =~= encode_entries(es) + line(43u8, vstd::utf8::encode_utf8(x.0))
            + encode_value(x.1));
    }
}

/// Appends the bytes of `s`.
pub fn push_slice(buf: &mut Vec<u8>, s: &[u8])
    ensures
        final(buf)@ == old(buf)@ + s@,
{
    let mut i: usize = 0;
    while i < s.len()
        invariant
            i <= s@.len(),
            buf@ == old(buf)@ + s@.take(i as int),
        decreases s@.len() - i,
    {
        buf.push(s[i]);
        i += 1;
        assert(buf@ =~= old(buf)@ + s@.take(i as int));
    }
    assert(s@.take(i as int) =~= s@);
}

fn push_crlf(buf: &mut Vec<u8>)
    ensures
        final(buf)@ == old(buf)@ + crlf(),
{
    buf.push(13u8);
    buf.push(10u8);
    assert(buf@ =~= old(buf)@ + crlf());
}

/// Appends `prefix`, the count `n` and CRLF: the header of an aggregate.
fn push_header(buf: &mut Vec<u8>, prefix: u8, n: usize)
    ensures
        final(buf)@ == old(buf)@ + line(prefix, crate::number::nat_digits(n as nat)),
{
    buf.push(prefix);
    write_nat(buf, n as u64);
    push_crlf(buf);
    assert(buf@ =~= old(buf)@ + line(prefix, crate::number::nat_digits(n as nat)));
}

/// Appends a line frame holding `text`.
fn push_text_line(buf: &mut Vec<u8>, prefix: u8, text: &String)
    ensures
        final(buf)@ == old(buf)@ + line(prefix, vstd::utf8::encode_utf8(text@)),
{
    buf.push(prefix);
    push_slice(buf, text.as_str().as_bytes());
    push_crlf(buf);
    assert(buf@ =~= old(buf)@ + line(prefix, vstd::utf8::encode_utf8(text@)));
}

fn push_frames(buf: &mut Vec<u8>, v: &Vec<RespFrame>, Ghost(xs): Ghost<Seq<Value>>)
    requires
        xs.len() == v@.len(),
        forall|i: int| 0 <= i < xs.len() ==> xs[i] == (#[trigger] v@[i]).view(),
    ensures
        final(buf)@ == old(buf)@ + encode_seq(xs),
    decreases v@, 0nat,
{
    let mut i: usize = 0;
    while i < v.len()
        invariant
            i <= v@.len(),
            xs.len() == v@.len(),
            forall|j: int| 0 <= j < xs.len() ==> xs[j] == (#[trigger] v@[j]).view(),
            buf@ == old(buf)@ + encode_seq(xs.take(i as int)),
        decreases v@.len() - i,
    {
        proof {
            lemma_encode_seq_push(xs.take(i as int), xs[i as int]);
            assert(xs.take(i + 1) =~= xs.take(i as int).push(xs[i as int]));
        }
        encode_into(&v[i], buf);
        i += 1;
    }
    assert(xs.take(i as int) =~= xs);
}

fn push_entries(buf: &mut Vec<u8>, v: &Vec<(String, RespFrame)>, Ghost(es): Ghost<Seq<(Seq<char>, Value)>>)
    requires
        es.len() == v@.len(),
        forall|i: int| 0 <= i < es.len() ==> es[i] == ((#[trigger] v@[i]).0@, v@[i].1.view()),
    ensures
        final(buf)@ == old(buf)@ + encode_entries(es),
    decreases v@, 0nat,
{
    let mut i: usize = 0;
    while i < v.len()
        invariant
            i <= v@.len(),
            es.len() == v@.len(),
            forall|j: int| 0 <= j < es.len() ==> es[j] == ((#[trigger] v@[j]).0@, v@[j].1.view()),
            buf@ == old(buf)@ + encode_entries(es.take(i as int)),
        decreases v@.len() - i,
    {
        proof {
            lemma_encode_entries_push(es.take(i as int), es[i as int]);
            assert(es.take(i + 1) =~= es.take(i as int).push(es[i as int]));
        }
        let entry = &v[i];
        push_text_line(buf, 43u8, &entry.0);
        encode_into(&entry.1, buf);
        i += 1;
    }
    assert(es.take(i as int) =~= es);
}

/// Appends the encoding of `f`.
pub fn encode_into(f: &RespFrame, buf: &mut Vec<u8>)
    ensures
        final(buf)@ == old(buf)@ + encode_value(f.view()),
    decreases f, 1nat,
{
    match f {
        RespFrame::SimpleString(s) => push_text_line(buf, 43u8, &s.0),
        RespFrame::Error(s) => push_text_line(buf, 45u8, &s.0),
        RespFrame::Integer(i) => {
            buf.push(58u8);
            write_int(buf, *i);
            push_crlf(buf);
            assert(buf@ =~= old(buf)@ + encode_value(f.view()));
        },
        RespFrame::BulkString(b) => {
            push_header(buf, 36u8, b.0.len());
            push_slice(buf, b.0.as_slice());
            push_crlf(buf);
            assert(buf@ =~= old(buf)@ + encode_value(f.view()));
        },
        RespFrame::Array(a) => {
            push_header(buf, 42u8, a.0.len());
            let ghost xs = match f.view() { Value::Array(xs) => xs, Value::RespSet(xs) => xs, _ => Seq::empty() };
            push_frames(buf, &a.0, Ghost(xs));
            assert(buf@ =~= old(buf)@ + encode_value(f.view()));
        },
        RespFrame::RespSet(a) => {
            push_header(buf, 126u8, a.0.len());
            let ghost xs = match f.view() { Value::Array(xs) => xs, Value::RespSet(xs) => xs, _ => Seq::empty() };
            push_frames(buf, &a.0, Ghost(xs));
            assert(buf@ =~= old(buf)@ + encode_value(f.view()));
        },
        RespFrame::RespMap(m) => {
            push_header(buf, 37u8, m.0.len());
            let ghost es = match f.view() { Value::RespMap(es) => es, _ => Seq::empty() };
            push_entries(buf, &m.0, Ghost(es));
            assert(buf@ =~= old(buf)@ + encode_value(f.view()));
        },
        RespFrame::Null(_) => {
            buf.push(95u8);
            push_crlf(buf);
            assert(buf@ =~= old(buf)@ + encode_value(f.view()));
        },
        RespFrame::NullArray(_) => {
            buf.push(42u8);
            buf.push(45u8);
            buf.push(49u8);
            push_crlf(buf);
            assert(buf@ =~= old(buf)@ + encode_value(f.view()));
        },
        RespFrame::NullBulkString(_) => {
            buf.push(36u8);
            buf.push(45u8);
            buf.push(49u8);
            push_crlf(buf);
            assert(buf@ =~= old(buf)@ + encode_value(f.view()));
        },
        RespFrame::Boolean(b) => {
            buf.push(35u8);
            buf.push(if *b { 116u8 } else { 102u8 });
            push_crlf(buf);
            assert(buf@ =~= old(buf)@ + encode_value(f.view()));
        },
        RespFrame::Double(d) => {
            buf.push(44u8);
            write_double(buf, d);
            push_crlf(buf);
            assert(buf@ =~= old(buf)@ + encode_value(f.view()));
        },
    }
}

impl RespEncoder for RespFrame {
    open spec fn encoding(&self) -> Seq<u8> {
        encode_value(self.view())
    }

    fn encode(self) -> (r: Vec<u8>) {
        let mut buf: Vec<u8> = Vec::new();
        encode_into(&self, &mut buf);
        assert(buf@ =~= encode_value(self.view()));
        buf
    }
}


impl RespEncoder for SimpleString {
    open spec fn encoding(&self) -> Seq<u8> {
        encode_value(Value::SimpleString(self.0@))
    }

    fn encode(self) -> (r: Vec<u8>) {
        RespFrame::SimpleString(self).encode()
    }
}

impl RespEncoder for SimpleError {
    open spec fn encoding(&self) -> Seq<u8> {
        encode_value(Value::Error(self.0@))
    }

    fn encode(self) -> (r: Vec<u8>) {
        RespFrame::Error(self).encode()
    }
}

impl RespEncoder for BulkString {
    open spec fn encoding(&self) -> Seq<u8> {
        encode_value(Value::BulkString(self.0@))
    }

    fn encode(self) -> (r: Vec<u8>) {
        RespFrame::BulkString(self).encode()
    }
}

impl RespEncoder for RespArray {
    open spec fn encoding(&self) -> Seq<u8> {
        encode_value(RespFrame::Array(*self).view())
    }

    fn encode(self) -> (r: Vec<u8>) {
        RespFrame::Array(self).encode()
    }
}

impl RespEncoder for RespNull {
    open spec fn encoding(&self) -> Seq<u8> {
        encode_value(Value::Null)
    }

    fn encode(self) -> (r: Vec<u8>) {
        RespFrame::Null(self).encode()
    }
}

impl RespEncoder for RespNullArray {
    open spec fn encoding(&self) -> Seq<u8> {
        encode_value(Value::NullArray)
    }

    fn encode(self) -> (r: Vec<u8>) {
        RespFrame::NullArray(self).encode()
    }
}

impl RespEncoder for RespNullBulkString {
    open spec fn encoding(&self) -> Seq<u8> {
        encode_value(Value::NullBulkString)
    }

    fn encode(self) -> (r: Vec<u8>) {
        RespFrame::NullBulkString(self).encode()
    }
}

impl RespEncoder for RespMap {
    open spec fn encoding(&self) -> Seq<u8> {
        encode_value(RespFrame::RespMap(*self).view())
    }

    fn encode(self) -> (r: Vec<u8>) {
        RespFrame::RespMap(self).encode()
    }
}

impl RespEncoder for RespSet {
    open spec fn encoding(&self) -> Seq<u8> {
        encode_value(RespFrame::RespSet(*self).view())
    }

    fn encode(self) -> (r: Vec<u8>) {
        RespFrame::RespSet(self).encode()
    }
}

impl RespEncoder for RespDouble {
    open spec fn encoding(&self) -> Seq<u8> {
        encode_value(Value::Double(self.view().0, self.view().1, self.view().2))
    }

    fn encode(self) -> (r: Vec<u8>) {
        RespFrame::Double(self).encode()
    }
}

impl RespEncoder for i64 {
    open spec fn encoding(&self) -> Seq<u8> {
        encode_value(Value::Integer(*self as int))
    }

    fn encode(self) -> (r: Vec<u8>) {
        RespFrame::Integer(self).encode()
    }
}

impl RespEncoder for bool {
    open spec fn encoding(&self) -> Seq<u8> {
        encode_value(Value::Boolean(*self))
    }

    fn encode(self) -> (r: Vec<u8>) {
        RespFrame::Boolean(self).encode()
    }
}

} // verus!
