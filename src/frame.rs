use vstd::prelude::*;
use crate::double::RespDouble;

verus! {

/// Why a buffer could not be decoded into a frame.
#[derive(Debug, Clone, Copy, PartialEq, Eq, Structural)]
pub enum RespError {
    InvalidFrame,
    InvalidFrameType,
    InvalidFrameLength,
    /// The buffer holds a prefix of a frame: more bytes are needed.
    NotComplete,
    ParseIntError,
    ParseDoubleError,
}

/// The mathematical model of a frame.
pub enum Value {
    SimpleString(Seq<char>),
    Error(Seq<char>),
    Integer(int),
    BulkString(Seq<u8>),
    Array(Seq<Value>),
    Null,
    NullArray,
    NullBulkString,
    Boolean(bool),
    /// `(negative, significand, exponent)`: the value `±significand * 10^exponent`.
    Double(bool, nat, int),
    /// Entries in ascending key order.
    RespMap(Seq<(Seq<char>, Value)>),
    RespSet(Seq<Value>),
}

#[derive(Debug, PartialEq)]
pub enum RespFrame {
    SimpleString(SimpleString),
    Error(SimpleError),
    Integer(i64),
    BulkString(BulkString),
    Array(RespArray),
    Null(RespNull),
    NullArray(RespNullArray),
    NullBulkString(RespNullBulkString),
    Boolean(bool),
    Double(RespDouble),
    RespMap(RespMap),
    RespSet(RespSet),
}

#[derive(Debug, Clone, PartialEq)]
pub struct SimpleString(pub String);

#[derive(Debug, Clone, PartialEq)]
pub struct SimpleError(pub String);

#[derive(Debug, Clone, PartialEq)]
pub struct BulkString(pub Vec<u8>);

#[derive(Debug, PartialEq)]
pub struct RespArray(pub Vec<RespFrame>);

#[derive(Debug, Clone, Copy, PartialEq, Eq, Structural)]
pub struct RespNull;

#[derive(Debug, Clone, Copy, PartialEq, Eq, Structural)]
pub struct RespNullArray;

#[derive(Debug, Clone, Copy, PartialEq, Eq, Structural)]
pub struct RespNullBulkString;

/// A map from text keys to frames. Its entries stay in ascending key order,
/// each key once (`RespMap::wf`): only `new`, `insert` and the decoder make
/// them, and each keeps that order.
#[derive(Debug, PartialEq)]
pub struct RespMap(pub(crate) Vec<(String, RespFrame)>);

/// An ordered collection of frames; nothing is deduplicated.
#[derive(Debug, PartialEq)]
pub struct RespSet(pub Vec<RespFrame>);

/// Lexicographic order on byte strings.
pub open spec fn bytes_lt(a: Seq<u8>, b: Seq<u8>) -> bool
    decreases a.len(),
{
    if a.len() == 0 {
        b.len() > 0
    } else if b.len() == 0 {
        false
    } else if a[0] != b[0] {
        a[0] < b[0]
    } else {
        bytes_lt(a.drop_first(), b.drop_first())
    }
}

/// Keys are ordered by their UTF-8 bytes, as `str` orders them.
pub open spec fn key_lt(a: Seq<char>, b: Seq<char>) -> bool {
    bytes_lt(vstd::utf8::encode_utf8(a), vstd::utf8::encode_utf8(b))
}

pub open spec fn keys_sorted(es: Seq<(Seq<char>, Value)>) -> bool {
    forall|i: int, j: int| 0 <= i < j < es.len() ==> key_lt(#[trigger] es[i].0, #[trigger] es[j].0)
}

pub open spec fn simple_text(s: Seq<char>) -> bool {
    forall|i: int| 0 <= i < s.len() ==> s[i] != '\r' && s[i] != '\n'
}

impl Value {
    /// A value that the wire can carry: texts without line breaks, lengths
    /// that fit in `usize`, maps in key order, doubles in normal form.
    pub open spec fn wf(self) -> bool
        decreases self,
    {
        match self {
            Value::SimpleString(s) => simple_text(s),
            Value::Error(s) => simple_text(s),
            Value::Integer(i) => i64::MIN <= i <= i64::MAX,
            Value::BulkString(b) => b.len() <= usize::MAX,
            Value::Array(xs) => xs.len() <= usize::MAX && forall|i: int|
                0 <= i < xs.len() ==> (#[trigger] xs[i]).wf(),
            Value::Double(neg, m, e) => crate::double::double_wf(neg, m, e),
            Value::RespMap(es) => es.len() <= usize::MAX && keys_sorted(es) && forall|i: int|
                0 <= i < es.len() ==> simple_text((#[trigger] es[i]).0) && es[i].1.wf(),
            Value::RespSet(xs) => xs.len() <= usize::MAX && forall|i: int|
                0 <= i < xs.len() ==> (#[trigger] xs[i]).wf(),
            _ => true,
        }
    }
}

impl RespMap {
    /// The entries as `(key, value)` pairs of the model.
    pub open(crate) spec fn entries_view(self) -> Seq<(Seq<char>, Value)> {
        Seq::new(self.0@.len(), |i: int| (self.0@[i].0@, self.0@[i].1.view()))
    }
}

impl RespFrame {
    pub open(crate) spec fn view(self) -> Value
        decreases self,
    {
        match self {
            RespFrame::SimpleString(s) => Value::SimpleString(s.0@),
            RespFrame::Error(s) => Value::Error(s.0@),
            RespFrame::Integer(i) => Value::Integer(i as int),
            RespFrame::BulkString(b) => Value::BulkString(b.0@),
            RespFrame::Array(a) => Value::Array(
                Seq::new(a.0@.len(), |i: int| if 0 <= i < a.0@.len() { a.0@[i].view() } else { Value::Null }),
            ),
            RespFrame::Null(_) => Value::Null,
            RespFrame::NullArray(_) => Value::NullArray,
            RespFrame::NullBulkString(_) => Value::NullBulkString,
            RespFrame::Boolean(b) => Value::Boolean(b),
            RespFrame::Double(d) => Value::Double(d.negative, d.significand as nat, d.exponent as int),
            RespFrame::RespMap(m) => Value::RespMap(
                Seq::new(m.0@.len(), |i: int| if 0 <= i < m.0@.len() { (m.0@[i].0@, m.0@[i].1.view()) } else { (Seq::empty(), Value::Null) }),
            ),
            RespFrame::RespSet(a) => Value::RespSet(
                Seq::new(a.0@.len(), |i: int| if 0 <= i < a.0@.len() { a.0@[i].view() } else { Value::Null }),
            ),
        }
    }
}

} // verus!

verus! {

impl SimpleString {
    pub fn new(s: &str) -> (r: Self)
        ensures
            r.0@ == s@,
    {
        SimpleString(s.to_owned())
    }
}

impl SimpleError {
    pub fn new(s: &str) -> (r: Self)
        ensures
            r.0@ == s@,
    {
        SimpleError(s.to_owned())
    }
}

impl BulkString {
    pub fn new(b: &[u8]) -> (r: Self)
        ensures
            r.0@ == b@,
    {
        BulkString(vstd::slice::slice_to_vec(b))
    }
}

impl RespArray {
    pub fn new(v: Vec<RespFrame>) -> (r: Self)
        ensures
            r.0@ == v@,
    {
        RespArray(v)
    }
}

impl RespSet {
    /// Keeps the frames as given: in order, duplicates included.
    pub fn new(v: Vec<RespFrame>) -> (r: Self)
        ensures
            r.0@ == v@,
    {
        RespSet(v)
    }
}

/// Compares two keys by their UTF-8 bytes.
pub fn key_less(a: &String, b: &String) -> (r: bool)
    ensures
        r == key_lt(a@, b@),
{
    let x = a.as_str().as_bytes();
    let y = b.as_str().as_bytes();
    let mut i: usize = 0;
    assert(x@.skip(0) =~= x@);
    assert(y@.skip(0) =~= y@);
    while i < x.len() && i < y.len() && x[i] == y[i]
        invariant
            i <= x@.len(),
            i <= y@.len(),
            bytes_lt(x@, y@) == bytes_lt(x@.skip(i as int), y@.skip(i as int)),
        decreases x@.len() - i,
    {
        assert(x@.skip(i as int).drop_first() =~= x@.skip(i + 1));
        assert(y@.skip(i as int).drop_first() =~= y@.skip(i + 1));
        i += 1;
    }
    if i == x.len() {
        i < y.len()
    } else if i == y.len() {
        false
    } else {
        x[i] < y[i]
    }
}

impl RespMap {
    pub fn new() -> (r: Self)
        ensures
            r.entries_view() == Seq::<(Seq<char>, Value)>::empty(),
            r.wf(),
    {
        let r = RespMap(Vec::new());
        assert(r.entries_view() =~= Seq::<(Seq<char>, Value)>::empty());
        r
    }

    /// Entries in ascending key order, each key once.
    pub open spec fn wf(&self) -> bool {
        keys_sorted(self.entries_view())
    }

    /// Sets `key` to `value`: an equal key is overwritten, a new one goes to
    /// its place in key order.
    pub fn insert(&mut self, key: String, value: RespFrame)
        ensures
            final(self).entries_view() == crate::wire::map_insert(old(self).entries_view(), key@, value.view()),
            old(self).wf() ==> final(self).wf(),
    {
        proof {
            if old(self).wf() {
                lemma_insert_sorted(old(self).entries_view(), key@, value.view());
            }
        }
        let ghost es = self.entries_view();
        let mut i: usize = 0;
        loop
            invariant
                i <= self.0@.len(),
                es == self.entries_view(),
                crate::wire::lower_bound(es, key@, 0) == crate::wire::lower_bound(es, key@, i as int),
            ensures
                i <= self.0@.len(),
                es == self.entries_view(),
                crate::wire::lower_bound(es, key@, 0) == i,
            decreases self.0@.len() - i,
        {
            if i == self.0.len() || !key_less(&self.0[i].0, &key) {
                break;
            }
            i += 1;
        }
        let ghost kv = key@;
        let ghost vv = value.view();
        if i < self.0.len() && self.0[i].0 == key {
            self.0.set(i, (key, value));
            assert(self.entries_view() =~= es.update(i as int, (kv, vv)));
        } else {
            self.0.insert(i, (key, value));
            assert(self.entries_view() =~= es.insert(i as int, (kv, vv)));
        }
    }
}

impl Default for RespMap {
    fn default() -> (r: Self)
        ensures
            r.entries_view() == Seq::<(Seq<char>, Value)>::empty(),
    {
        RespMap::new()
    }
}

/// What a map holds for `k`, found the way `insert` places keys.
pub open spec fn map_get(es: Seq<(Seq<char>, Value)>, k: Seq<char>) -> Option<Value> {
    let p = crate::wire::lower_bound(es, k, 0);
    if p < es.len() && es[p].0 == k {
        Some(es[p].1)
    } else {
        None
    }
}

pub open spec fn frames_seq_view(v: Seq<RespFrame>) -> Seq<Value> {
    Seq::new(v.len(), |i: int| v[i].view())
}

impl RespFrame {
    /// A copy of the frame, equal in every part.
    pub fn deep_clone(&self) -> (r: RespFrame)
        ensures
            r.view() == self.view(),
        decreases self, 1nat,
    {
        match self {
            RespFrame::SimpleString(s) => RespFrame::SimpleString(SimpleString(s.0.clone())),
            RespFrame::Error(s) => RespFrame::Error(SimpleError(s.0.clone())),
            RespFrame::Integer(i) => RespFrame::Integer(*i),
            RespFrame::BulkString(b) => RespFrame::BulkString(BulkString(vstd::slice::slice_to_vec(b.0.as_slice()))),
            RespFrame::Array(a) => {
                let v = clone_frames(&a.0);
                let r = RespFrame::Array(RespArray(v));
                let ghost xs = match r.view() { Value::Array(xs) => xs, _ => Seq::empty() };
                let ghost ys = match self.view() { Value::Array(ys) => ys, _ => Seq::empty() };
                assert(frames_seq_view(v@).len() == frames_seq_view(a.0@).len());
                assert(ys.len() == a.0@.len());
                assert(xs.len() == v@.len());
                assert forall|i: int| 0 <= i < xs.len() implies xs[i] == ys[i] by {
                    assert(frames_seq_view(v@)[i] == frames_seq_view(a.0@)[i]);
                    assert(xs[i] == v@[i].view());
                    assert(ys[i] == a.0@[i].view());
                }
                assert(xs =~= ys);
                r
            },
            RespFrame::RespSet(a) => {
                let v = clone_frames(&a.0);
                let r = RespFrame::RespSet(RespSet(v));
                let ghost xs = match r.view() { Value::RespSet(xs) => xs, _ => Seq::empty() };
                let ghost ys = match self.view() { Value::RespSet(ys) => ys, _ => Seq::empty() };
                assert(frames_seq_view(v@).len() == frames_seq_view(a.0@).len());
                assert(ys.len() == a.0@.len());
                assert(xs.len() == v@.len());
                assert forall|i: int| 0 <= i < xs.len() implies xs[i] == ys[i] by {
                    assert(frames_seq_view(v@)[i] == frames_seq_view(a.0@)[i]);
                    assert(xs[i] == v@[i].view());
                    assert(ys[i] == a.0@[i].view());
                }
                assert(xs =~= ys);
                r
            },
            RespFrame::RespMap(m) => {
                let c = clone_entries(&m.0);
                let r = RespFrame::RespMap(c);
                let ghost xs = match r.view() { Value::RespMap(xs) => xs, _ => Seq::empty() };
                let ghost ys = match self.view() { Value::RespMap(ys) => ys, _ => Seq::empty() };
                assert(xs =~= c.entries_view());
                assert(ys =~= m.entries_view());
                r
            },
            RespFrame::Null(_) => RespFrame::Null(RespNull),
            RespFrame::NullArray(_) => RespFrame::NullArray(RespNullArray),
            RespFrame::NullBulkString(_) => RespFrame::NullBulkString(RespNullBulkString),
            RespFrame::Boolean(b) => RespFrame::Boolean(*b),
            RespFrame::Double(d) => RespFrame::Double(*d),
        }
    }
}

fn clone_frames(v: &Vec<RespFrame>) -> (r: Vec<RespFrame>)
    ensures
        frames_seq_view(r@) == frames_seq_view(v@),
    decreases v@, 0nat,
{
    let mut out: Vec<RespFrame> = Vec::new();
    let mut i: usize = 0;
    while i < v.len()
        invariant
            i <= v@.len(),
            out@.len() == i,
            forall|j: int| 0 <= j < i ==> (#[trigger] out@[j]).view() == v@[j].view(),
        decreases v@.len() - i,
    {
        out.push(v[i].deep_clone());
        i += 1;
    }
    assert(frames_seq_view(out@) =~= frames_seq_view(v@));
    out
}

fn clone_entries(v: &Vec<(String, RespFrame)>) -> (r: RespMap)
    ensures
        r.entries_view() == RespMap(*v).entries_view(),
    decreases v@, 0nat,
{
    let mut out: Vec<(String, RespFrame)> = Vec::new();
    let mut i: usize = 0;
    while i < v.len()
        invariant
            i <= v@.len(),
            out@.len() == i,
            forall|j: int| 0 <= j < i ==> (#[trigger] out@[j]).0@ == v@[j].0@ && out@[j].1.view() == v@[j].1.view(),
        decreases v@.len() - i,
    {
        let entry = &v[i];
        out.push((entry.0.clone(), entry.1.deep_clone()));
        i += 1;
    }
    let r = RespMap(out);
    assert(r.entries_view() =~= RespMap(*v).entries_view());
    r
}

impl RespMap {
    pub fn deep_clone(&self) -> (r: RespMap)
        ensures
            r.entries_view() == self.entries_view(),
    {
        clone_entries(&self.0)
    }

    /// The frame stored under `key`.
    pub fn get(&self, key: &String) -> (r: Option<&RespFrame>)
        ensures
            match r {
                Some(f) => map_get(self.entries_view(), key@) == Some(f.view()),
                None => map_get(self.entries_view(), key@) is None,
            },
    {
        let ghost es = self.entries_view();
        let mut i: usize = 0;
        loop
            invariant
                i <= self.0@.len(),
                es == self.entries_view(),
                crate::wire::lower_bound(es, key@, 0) == crate::wire::lower_bound(es, key@, i as int),
            ensures
                i <= self.0@.len(),
                crate::wire::lower_bound(es, key@, 0) == i,
            decreases self.0@.len() - i,
        {
            if i == self.0.len() || !key_less(&self.0[i].0, key) {
                break;
            }
            i += 1;
        }
        if i < self.0.len() && self.0[i].0 == *key {
            Some(&self.0[i].1)
        } else {
            None
        }
    }

    pub fn len(&self) -> (r: usize)
        ensures
            r == self.entries_view().len(),
    {
        self.0.len()
    }
}

pub proof fn lemma_bytes_lt_irreflexive(a: Seq<u8>)
    ensures
        !bytes_lt(a, a),
    decreases a.len(),
{
    if a.len() > 0 {
        lemma_bytes_lt_irreflexive(a.drop_first());
    }
}

pub proof fn lemma_lower_bound_at(es: Seq<(Seq<char>, Value)>, k: Seq<char>, i: int, p: int)
    requires
        0 <= i <= p <= es.len(),
        forall|j: int| i <= j < p ==> key_lt(#[trigger] es[j].0, k),
        p < es.len() ==> !key_lt(es[p].0, k),
    ensures
        crate::wire::lower_bound(es, k, i) == p,
    decreases p - i,
{
    if i < p {
        lemma_lower_bound_at(es, k, i + 1, p);
    }
}

pub proof fn lemma_lower_bound_props(es: Seq<(Seq<char>, Value)>, k: Seq<char>, i: int)
    requires
        0 <= i <= es.len(),
    ensures
        i <= crate::wire::lower_bound(es, k, i) <= es.len(),
        forall|j: int| i <= j < crate::wire::lower_bound(es, k, i) ==> key_lt(#[trigger] es[j].0, k),
        crate::wire::lower_bound(es, k, i) < es.len() ==> !key_lt(es[crate::wire::lower_bound(es, k, i)].0, k),
    decreases es.len() - i,
{
    if i < es.len() {
        lemma_lower_bound_props(es, k, i + 1);
    }
}

pub proof fn lemma_bytes_lt_total(a: Seq<u8>, b: Seq<u8>)
    requires
        a != b,
    ensures
        bytes_lt(a, b) || bytes_lt(b, a),
    decreases a.len(),
{
    if a.len() > 0 && b.len() > 0 && a[0] == b[0] {
        if a.drop_first() == b.drop_first() {
            assert(a =~= seq![a[0]] + a.drop_first());
            assert(b =~= seq![b[0]] + b.drop_first());
        }
        lemma_bytes_lt_total(a.drop_first(), b.drop_first());
    } else if a.len() == 0 && b.len() == 0 {
        assert(a =~= b);
    }
}

pub proof fn lemma_bytes_lt_trans(a: Seq<u8>, b: Seq<u8>, c: Seq<u8>)
    requires
        bytes_lt(a, b),
        bytes_lt(b, c),
    ensures
        bytes_lt(a, c),
    decreases a.len(),
{
    if a.len() > 0 && b.len() > 0 && c.len() > 0 && a[0] == b[0] && b[0] == c[0] {
        lemma_bytes_lt_trans(a.drop_first(), b.drop_first(), c.drop_first());
    }
}

/// Distinct keys are ordered one way or the other.
pub proof fn lemma_key_lt_total(a: Seq<char>, b: Seq<char>)
    requires
        a != b,
    ensures
        key_lt(a, b) || key_lt(b, a),
{
    vstd::utf8::encode_utf8_decode_utf8(a);
    vstd::utf8::encode_utf8_decode_utf8(b);
    lemma_bytes_lt_total(vstd::utf8::encode_utf8(a), vstd::utf8::encode_utf8(b));
}

/// Inserting keeps entries in key order.
pub proof fn lemma_insert_sorted(es: Seq<(Seq<char>, Value)>, k: Seq<char>, v: Value)
    requires
        keys_sorted(es),
    ensures
        keys_sorted(crate::wire::map_insert(es, k, v)),
{
    let p = crate::wire::lower_bound(es, k, 0);
    lemma_lower_bound_props(es, k, 0);
    let es2 = crate::wire::map_insert(es, k, v);
    if p < es.len() && es[p].0 == k {
        assert forall|i: int, j: int| 0 <= i < j < es2.len() implies key_lt(#[trigger] es2[i].0, #[trigger] es2[j].0) by {
            assert(es2[i].0 == es[i].0 && es2[j].0 == es[j].0);
        }
    } else {
        if p < es.len() {
            lemma_key_lt_total(es[p].0, k);
        }
        assert forall|i: int, j: int| 0 <= i < j < es2.len() implies key_lt(#[trigger] es2[i].0, #[trigger] es2[j].0) by {
            let ka = vstd::utf8::encode_utf8(k);
            if j < p {
                assert(es2[i] == es[i] && es2[j] == es[j]);
            } else if j == p {
                assert(es2[i] == es[i]);
            } else if i == p {
                assert(es2[j] == es[j - 1]);
                if j - 1 > p {
                    lemma_bytes_lt_trans(ka, vstd::utf8::encode_utf8(es[p].0), vstd::utf8::encode_utf8(es[j - 1].0));
                }
            } else if i < p {
                assert(es2[i] == es[i] && es2[j] == es[j - 1]);
            } else {
                assert(es2[i] == es[i - 1] && es2[j] == es[j - 1]);
            }
        }
    }
}

} // verus!
