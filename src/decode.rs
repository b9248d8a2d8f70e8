//! The streaming decoder: a measurement pass over prefixes and declared
//! lengths, then a consume pass that builds the frame. Nothing is taken from
//! the buffer unless a whole frame is there.
use vstd::prelude::*;
use vstd::slice::slice_subrange;
use crate::frame::{RespError, RespFrame, Value, SimpleString, SimpleError, BulkString, RespArray,
    RespNull, RespNullArray, RespNullBulkString, RespMap, RespSet, frames_seq_view};
use crate::number::{parse_unsigned_at, parse_signed_at};
use crate::double::parse_double_at;
use crate::buffer::{text_from_bytes, lossy_text, buffer_bytes, buffer_slice, buffer_advance};
use crate::double::RespDouble;
use bytes::BytesMut;
use crate::wire::{crlf_scan, line_end, header, starts_with, begins, null_bulk_lit, null_array_lit, measure, measure_item, measure_items, parse, parse_items, parse_entries, entries_map, null_lit, true_lit, false_lit, is_aggregate_prefix};

verus! {

/// `Ok(k)` moved on by `d`; errors unchanged.
pub open spec fn shift(r: Result<nat, RespError>, d: nat) -> Result<nat, RespError> {
    match r {
        Ok(k) => Ok(k + d),
        Err(x) => Err(x),
    }
}

/// Position of the `nth` CRLF in `buf` (counting from one).
pub fn find_crlf(buf: &[u8], nth: usize) -> (r: Option<usize>)
    ensures
        match r {
            Some(i) => crlf_scan(buf@, 0, nth as int) == Some(i as int),
            None => crlf_scan(buf@, 0, nth as int) is None,
        },
{
    if nth == 0 || buf.len() < 2 {
        return None;
    }
    let mut count: usize = 0;
    let mut i: usize = 0;
    while i < buf.len() - 1
        invariant
            buf@.len() >= 2,
            i <= buf@.len() - 1,
            count < nth,
            crlf_scan(buf@, 0, nth as int) == crlf_scan(buf@, i as int, nth - count),
        decreases buf@.len() - i,
    {
        if buf[i] == 13u8 && buf[i + 1] == 10u8 {
            count += 1;
            if count == nth {
                return Some(i);
            }
        }
        i += 1;
    }
    None
}

/// Where the first line ends: the position of its CRLF.
pub fn extract_simple_frame_data(buf: &[u8], prefix: u8) -> (r: Result<usize, RespError>)
    ensures
        r matches Ok(e) ==> (prefix != 13u8 ==> 1 <= e) && e + 2 <= buf@.len(),
        match r {
            Ok(e) => line_end(buf@, prefix) == Ok::<int, RespError>(e as int),
            Err(x) => line_end(buf@, prefix) == Err::<int, RespError>(x),
        },
{
    if buf.len() < 3 {
        return Err(RespError::NotComplete);
    }
    if buf[0] != prefix {
        return Err(RespError::InvalidFrameType);
    }
    match find_crlf(buf, 1) {
        Some(e) => {
            proof {
                crate::wire::lemma_line_end_after_prefix(buf@, prefix);
                crate::wire::lemma_crlf_scan_from(buf@, 0, 1);
            }
            if e <= buf.len() - 2 {
                Ok(e)
            } else {
                Err(RespError::NotComplete)
            }
        },
        None => Err(RespError::NotComplete),
    }
}

/// A length header: where its line ends and the length it declares.
pub fn parse_length(buf: &[u8], prefix: u8) -> (r: Result<(usize, usize), RespError>)
    ensures
        r matches Ok((e, n)) ==> 1 <= e && e + 2 <= buf@.len(),
        match r {
            Ok((e, n)) => header(buf@, prefix) == Ok::<(int, nat), RespError>((e as int, n as nat)),
            Err(x) => header(buf@, prefix) == Err::<(int, nat), RespError>(x),
        },
{
    let e = match extract_simple_frame_data(buf, prefix) {
        Ok(e) => e,
        Err(x) => return Err(x),
    };
    if e < 1 {
        return Err(RespError::ParseIntError);
    }
    match parse_unsigned_at(buf, 1, e) {
        Some(n) => Ok((e, n)),
        None => Err(RespError::ParseIntError),
    }
}

fn starts_with_lit(buf: &[u8], lit: &[u8]) -> (r: bool)
    ensures
        r == starts_with(buf@, lit@),
{
    if buf.len() < lit.len() {
        return false;
    }
    let mut i: usize = 0;
    while i < lit.len()
        invariant
            i <= lit@.len() <= buf@.len(),
            buf@.take(i as int) == lit@.take(i as int),
        decreases lit@.len() - i,
    {
        if buf[i] != lit[i] {
            assert(buf@.take(lit@.len() as int)[i as int] != lit@[i as int]);
            return false;
        }
        i += 1;
        assert(buf@.take(i as int) =~= lit@.take(i as int));
    }
    assert(lit@.take(i as int) =~= lit@);
    true
}

fn begins_lit(buf: &[u8], lit: &[u8]) -> (r: bool)
    ensures
        r == begins(buf@, lit@),
{
    if buf.len() >= lit.len() {
        return false;
    }
    let mut i: usize = 0;
    while i < buf.len()
        invariant
            i <= buf@.len() < lit@.len(),
            buf@.take(i as int) == lit@.take(i as int),
        decreases buf@.len() - i,
    {
        if buf[i] != lit[i] {
            assert(lit@.take(buf@.len() as int)[i as int] != buf@[i as int]);
            return false;
        }
        i += 1;
        assert(buf@.take(i as int) =~= lit@.take(i as int));
    }
    assert(buf@.take(i as int) =~= buf@);
    true
}

fn null_bulk_bytes() -> (r: [u8; 5])
    ensures
        r@ == null_bulk_lit(),
{
    let r = [36u8, 45u8, 49u8, 13u8, 10u8];
    assert(r@ =~= null_bulk_lit());
    r
}

fn null_array_bytes() -> (r: [u8; 5])
    ensures
        r@ == null_array_lit(),
{
    let r = [42u8, 45u8, 49u8, 13u8, 10u8];
    assert(r@ =~= null_array_lit());
    r
}

impl RespFrame {
    /// The measurement pass: how many bytes the first frame of `buf` takes.
    pub fn expect_length(buf: &[u8]) -> (r: Result<usize, RespError>)
        ensures
            match r {
                Ok(k) => measure(buf@) == Ok::<nat, RespError>(k as nat),
                Err(x) => measure(buf@) == Err::<nat, RespError>(x),
            },
        decreases buf@.len(), 1nat,
    {
        if buf.len() == 0 {
            return Err(RespError::NotComplete);
        }
        let c = buf[0];
        if c == 43u8 || c == 45u8 || c == 58u8 || c == 44u8 {
            match extract_simple_frame_data(buf, c) {
                Ok(e) => Ok(e + 2),
                Err(x) => Err(x),
            }
        } else if c == 36u8 {
            let lit = null_bulk_bytes();
            if starts_with_lit(buf, &lit) {
                Ok(5)
            } else if begins_lit(buf, &lit) {
                Err(RespError::NotComplete)
            } else {
                let (e, n) = match parse_length(buf, 36u8) {
                    Ok(x) => x,
                    Err(x) => return Err(x),
                };
                if n > buf.len() - (e + 2) || buf.len() - (e + 2) - n < 2 {
                    Err(RespError::NotComplete)
                } else {
                    Ok(e + 2 + n + 2)
                }
            }
        } else if c == 42u8 || c == 126u8 || c == 37u8 {
            let lit = null_array_bytes();
            if c == 42u8 && starts_with_lit(buf, &lit) {
                Ok(5)
            } else if c == 42u8 && begins_lit(buf, &lit) {
                Err(RespError::NotComplete)
            } else {
                let (e, n) = match parse_length(buf, c) {
                    Ok(x) => x,
                    Err(x) => return Err(x),
                };
                calc_total_length(buf, e, n, c)
            }
        } else if c == 95u8 {
            if buf.len() < 3 { Err(RespError::NotComplete) } else { Ok(3) }
        } else if c == 35u8 {
            if buf.len() < 4 { Err(RespError::NotComplete) } else { Ok(4) }
        } else {
            Err(RespError::InvalidFrameType)
        }
    }
}

/// Length of one element of an aggregate (for a map: key and value).
fn item_length(buf: &[u8], pairs: bool) -> (r: Result<usize, RespError>)
    ensures
        match r {
            Ok(k) => measure_item(buf@, pairs) == Ok::<nat, RespError>(k as nat),
            Err(x) => measure_item(buf@, pairs) == Err::<nat, RespError>(x),
        },
    decreases buf@.len(), 2nat,
{
    if pairs {
        let e = match extract_simple_frame_data(buf, 43u8) {
            Ok(e) => e,
            Err(x) => return Err(x),
        };
        let n = buf.len();
        let rest = slice_subrange(buf, e + 2, n);
        assert(rest@ == buf@.skip(e + 2));
        match RespFrame::expect_length(rest) {
            Ok(k) => {
                proof {
                    crate::wire::lemma_measure_le(rest@);
                }
                Ok(e + 2 + k)
            },
            Err(x) => Err(x),
        }
    } else {
        RespFrame::expect_length(buf)
    }
}

/// Total length of an aggregate whose header line ends at `end` and
/// declares `len` elements.
pub fn calc_total_length(buf: &[u8], end: usize, len: usize, prefix: u8) -> (r: Result<usize, RespError>)
    requires
        end + 2 <= buf@.len(),
    ensures
        match r {
            Ok(k) => shift(measure_items(buf@.skip(end + 2), len as nat, prefix == 37u8), (end + 2) as nat)
                == Ok::<nat, RespError>(k as nat),
            Err(x) => shift(measure_items(buf@.skip(end + 2), len as nat, prefix == 37u8), (end + 2) as nat)
                == Err::<nat, RespError>(x),
        },
    decreases buf@.len(), 0nat,
{
    let n = buf.len();
    let pairs = prefix == 37u8;
    let ghost s0 = buf@.skip(end + 2);
    let mut pos: usize = end + 2;
    let mut i: usize = 0;
    assert(buf@.skip(pos as int) =~= s0);
    while i < len
        invariant
            end + 2 <= pos <= buf@.len(),
            i <= len,
            s0 == buf@.skip(end + 2),
            pairs == (prefix == 37u8),
            shift(measure_items(s0, len as nat, pairs), (end + 2) as nat)
                == shift(measure_items(buf@.skip(pos as int), (len - i) as nat, pairs), pos as nat),
        decreases len - i,
    {
        let rest = slice_subrange(buf, pos, buf.len());
        assert(rest@ == buf@.skip(pos as int));
        let k = match item_length(rest, pairs) {
            Ok(k) => k,
            Err(x) => return Err(x),
        };
        if k > rest.len() {
            return Err(RespError::NotComplete);
        }
        assert(buf@.skip(pos as int).skip(k as int) =~= buf@.skip(pos + k));
        pos = pos + k;
        i = i + 1;
    }
    Ok(pos)
}

/// `Ok((rest, r))` with `acc` put in front and `d` added; errors unchanged.
pub open spec fn prepend<T>(acc: Seq<T>, d: nat, r: Result<(Seq<T>, nat), RespError>) -> Result<(Seq<T>, nat), RespError> {
    match r {
        Ok((rest, k)) => Ok((acc + rest, d + k)),
        Err(x) => Err(x),
    }
}

/// `n` frames one after the other.
fn decode_items(s: &[u8], n: usize) -> (r: Result<(Vec<RespFrame>, usize), RespError>)
    ensures
        match r {
            Ok((v, k)) => parse_items(s@, n as nat) == Ok::<(Seq<Value>, nat), RespError>((frames_seq_view(v@), k as nat))
                && k <= s@.len(),
            Err(x) => parse_items(s@, n as nat) == Err::<(Seq<Value>, nat), RespError>(x),
        },
    decreases s@.len(), 2nat,
{
    let len = s.len();
    let mut out: Vec<RespFrame> = Vec::new();
    let mut pos: usize = 0;
    let mut i: usize = 0;
    assert(s@.skip(0) =~= s@);
    assert(frames_seq_view(out@) + Seq::<Value>::empty() =~= Seq::<Value>::empty());
    while i < n
        invariant
            pos <= s@.len(),
            i <= n,
            len == s@.len(),
            parse_items(s@, n as nat) == prepend(frames_seq_view(out@), pos as nat,
                parse_items(s@.skip(pos as int), (n - i) as nat)),
        decreases n - i,
    {
        let rest = slice_subrange(s, pos, len);
        assert(rest@ == s@.skip(pos as int));
        let (f, k) = match decode_frame(rest) {
            Ok(x) => x,
            Err(x) => return Err(x),
        };
        let ghost acc = frames_seq_view(out@);
        let ghost v = f.view();
        assert(s@.skip(pos as int).skip(k as int) =~= s@.skip(pos + k));
        proof {
            let tail = parse_items(s@.skip(pos + k), (n - i - 1) as nat);
            if let Ok((rest2, r2)) = tail {
                assert(acc + (seq![v] + rest2) =~= acc.push(v) + rest2);
            }
        }
        out.push(f);
        assert(frames_seq_view(out@) =~= acc.push(v));
        pos = pos + k;
        i = i + 1;
    }
    assert(frames_seq_view(out@) + Seq::<Value>::empty() =~= frames_seq_view(out@));
    Ok((out, pos))
}

/// `n` map entries, inserted in order into a new map.
fn decode_entries(s: &[u8], n: usize) -> (r: Result<(RespMap, usize), RespError>)
    ensures
        match r {
            Ok((m, k)) => k <= s@.len() && (match parse_entries(s@, n as nat) {
                Ok((list, k2)) => k2 == k && m.entries_view() == entries_map(list),
                Err(_) => false,
            }),
            Err(x) => parse_entries(s@, n as nat) == Err::<(Seq<(Seq<char>, Value)>, nat), RespError>(x),
        },
    decreases s@.len(), 2nat,
{
    let len = s.len();
    let mut map = RespMap::new();
    let ghost mut acc: Seq<(Seq<char>, Value)> = Seq::empty();
    let mut pos: usize = 0;
    let mut i: usize = 0;
    assert(s@.skip(0) =~= s@);
    assert(acc + Seq::<(Seq<char>, Value)>::empty() =~= acc);
    assert(entries_map(acc) == Seq::<(Seq<char>, Value)>::empty());
    while i < n
        invariant
            pos <= s@.len(),
            i <= n,
            len == s@.len(),
            map.entries_view() == entries_map(acc),
            parse_entries(s@, n as nat) == prepend(acc, pos as nat,
                parse_entries(s@.skip(pos as int), (n - i) as nat)),
        decreases n - i,
    {
        let rest = slice_subrange(s, pos, len);
        assert(rest@ == s@.skip(pos as int));
        let e = match extract_simple_frame_data(rest, 43u8) {
            Ok(e) => e,
            Err(x) => return Err(x),
        };
        let rlen = rest.len();
        let value_bytes = slice_subrange(rest, e + 2, rlen);
        assert(value_bytes@ == rest@.skip(e + 2));
        let (f, k) = match decode_frame(value_bytes) {
            Ok(x) => x,
            Err(x) => return Err(x),
        };
        let key_bytes = slice_subrange(rest, 1, e);
        let key = text_from_bytes(key_bytes);
        let ghost entry = (key@, f.view());
        assert(key@ == lossy_text(rest@.subrange(1, e as int)));
        assert(s@.skip(pos as int).skip(e + 2 + k) =~= s@.skip(pos + e + 2 + k));
        proof {
            let tail = parse_entries(s@.skip(pos + e + 2 + k), (n - i - 1) as nat);
            if let Ok((rest2, r2)) = tail {
                assert(acc + (seq![entry] + rest2) =~= acc.push(entry) + rest2);
            }
            assert(acc.push(entry).drop_last() =~= acc);
        }
        map.insert(key, f);
        proof {
            acc = acc.push(entry);
        }
        pos = pos + e + 2 + k;
        i = i + 1;
    }
    assert(acc + Seq::<(Seq<char>, Value)>::empty() =~= acc);
    Ok((map, pos))
}

fn decode_line(buf: &[u8], c: u8) -> (r: Result<(RespFrame, usize), RespError>)
    requires
        buf@.len() > 0,
        buf@[0] == c,
        c == 43u8 || c == 45u8 || c == 58u8 || c == 44u8,
    ensures
        match r {
            Ok((f, k)) => parse(buf@) == Ok::<(Value, nat), RespError>((f.view(), k as nat)) && k <= buf@.len(),
            Err(x) => parse(buf@) == Err::<(Value, nat), RespError>(x),
        },
{
    let len = buf.len();
    let e = match extract_simple_frame_data(buf, c) {
        Ok(e) => e,
        Err(x) => return Err(x),
    };
    if c == 43u8 || c == 45u8 {
        let text = text_from_bytes(slice_subrange(buf, 1, e));
        assert(text@ == lossy_text(buf@.subrange(1, e as int)));
        if c == 43u8 {
            Ok((RespFrame::SimpleString(SimpleString(text)), e + 2))
        } else {
            Ok((RespFrame::Error(SimpleError(text)), e + 2))
        }
    } else if c == 58u8 {
        match parse_signed_at(buf, 1, e) {
            Some(i) => Ok((RespFrame::Integer(i), e + 2)),
            None => Err(RespError::ParseIntError),
        }
    } else {
        match parse_double_at(buf, 1, e) {
            Some(d) => Ok((RespFrame::Double(d), e + 2)),
            None => Err(RespError::ParseDoubleError),
        }
    }
}

fn decode_bulk(buf: &[u8]) -> (r: Result<(RespFrame, usize), RespError>)
    requires
        buf@.len() > 0,
        buf@[0] == 36u8,
    ensures
        match r {
            Ok((f, k)) => parse(buf@) == Ok::<(Value, nat), RespError>((f.view(), k as nat)) && k <= buf@.len(),
            Err(x) => parse(buf@) == Err::<(Value, nat), RespError>(x),
        },
{
    let len = buf.len();
    let lit = null_bulk_bytes();
    if starts_with_lit(buf, &lit) {
        Ok((RespFrame::NullBulkString(RespNullBulkString), 5))
    } else if begins_lit(buf, &lit) {
        Err(RespError::NotComplete)
    } else {
        let (e, n) = match parse_length(buf, 36u8) {
            Ok(x) => x,
            Err(x) => return Err(x),
        };
        if n > len - (e + 2) || len - (e + 2) - n < 2 {
            Err(RespError::NotComplete)
        } else {
            let data = vstd::slice::slice_to_vec(slice_subrange(buf, e + 2, e + 2 + n));
            Ok((RespFrame::BulkString(BulkString(data)), e + 2 + n + 2))
        }
    }
}

fn decode_fixed(buf: &[u8], c: u8) -> (r: Result<(RespFrame, usize), RespError>)
    requires
        buf@.len() > 0,
        buf@[0] == c,
        c == 95u8 || c == 35u8,
    ensures
        match r {
            Ok((f, k)) => parse(buf@) == Ok::<(Value, nat), RespError>((f.view(), k as nat)) && k <= buf@.len(),
            Err(x) => parse(buf@) == Err::<(Value, nat), RespError>(x),
        },
{
    let len = buf.len();
    if c == 95u8 {
        if len < 3 {
            Err(RespError::NotComplete)
        } else if buf[1] == 13u8 && buf[2] == 10u8 {
            assert(buf@.take(3) =~= null_lit());
            Ok((RespFrame::Null(RespNull), 3))
        } else {
            assert(buf@.take(3)[1] == buf@[1] && buf@.take(3)[2] == buf@[2]);
            Err(RespError::InvalidFrameType)
        }
    } else {
        if len < 4 {
            Err(RespError::NotComplete)
        } else if buf[2] == 13u8 && buf[3] == 10u8 && (buf[1] == 116u8 || buf[1] == 102u8) {
            if buf[1] == 116u8 {
                assert(buf@.take(4) =~= true_lit());
                Ok((RespFrame::Boolean(true), 4))
            } else {
                assert(buf@.take(4) =~= false_lit());
                assert(!starts_with(buf@, true_lit())) by {
                    assert(buf@.take(4)[1] == buf@[1]);
                }
                Ok((RespFrame::Boolean(false), 4))
            }
        } else {
            assert(!starts_with(buf@, true_lit()) && !starts_with(buf@, false_lit())) by {
                assert(buf@.take(4)[1] == buf@[1]);
                assert(buf@.take(4)[2] == buf@[2]);
                assert(buf@.take(4)[3] == buf@[3]);
            }
            Err(RespError::InvalidFrameType)
        }
    }
}

fn decode_aggregate(buf: &[u8], c: u8) -> (r: Result<(RespFrame, usize), RespError>)
    requires
        buf@.len() > 0,
        buf@[0] == c,
        is_aggregate_prefix(c),
    ensures
        match r {
            Ok((f, k)) => parse(buf@) == Ok::<(Value, nat), RespError>((f.view(), k as nat)) && k <= buf@.len(),
            Err(x) => parse(buf@) == Err::<(Value, nat), RespError>(x),
        },
    decreases buf@.len(), 0nat,
{
    let len = buf.len();
    let lit = null_array_bytes();
    if c == 42u8 && starts_with_lit(buf, &lit) {
        return Ok((RespFrame::NullArray(RespNullArray), 5));
    } else if c == 42u8 && begins_lit(buf, &lit) {
        return Err(RespError::NotComplete);
    }
    match RespFrame::expect_length(buf) {
        Ok(_) => {},
        Err(x) => return Err(x),
    }
    let (e, n) = match parse_length(buf, c) {
        Ok(x) => x,
        Err(x) => return Err(x),
    };
    let rest = slice_subrange(buf, e + 2, len);
    assert(rest@ == buf@.skip(e + 2));
    if c == 37u8 {
        match decode_entries(rest, n) {
            Ok((m, k)) => {
                let f = RespFrame::RespMap(m);
                let ghost es = match f.view() { Value::RespMap(es) => es, _ => Seq::empty() };
                assert(es =~= m.entries_view());
                Ok((f, e + 2 + k))
            },
            Err(x) => Err(x),
        }
    } else {
        match decode_items(rest, n) {
            Ok((v, k)) => {
                if c == 42u8 {
                    let f = RespFrame::Array(RespArray(v));
                    let ghost xs = match f.view() { Value::Array(xs) => xs, _ => Seq::empty() };
                    assert(xs =~= frames_seq_view(v@));
                    Ok((f, e + 2 + k))
                } else {
                    let f = RespFrame::RespSet(RespSet(v));
                    let ghost xs = match f.view() { Value::RespSet(xs) => xs, _ => Seq::empty() };
                    assert(xs =~= frames_seq_view(v@));
                    Ok((f, e + 2 + k))
                }
            },
            Err(x) => Err(x),
        }
    }
}

/// The consume pass on a slice: the first frame of `buf` and how many bytes
/// it takes. Reads `buf` only.
pub fn decode_frame(buf: &[u8]) -> (r: Result<(RespFrame, usize), RespError>)
    ensures
        match r {
            Ok((f, k)) => parse(buf@) == Ok::<(Value, nat), RespError>((f.view(), k as nat)) && k <= buf@.len(),
            Err(x) => parse(buf@) == Err::<(Value, nat), RespError>(x),
        },
    decreases buf@.len(), 1nat,
{
    if buf.len() == 0 {
        return Err(RespError::NotComplete);
    }
    let c = buf[0];
    if c == 43u8 || c == 45u8 || c == 58u8 || c == 44u8 {
        decode_line(buf, c)
    } else if c == 36u8 {
        decode_bulk(buf)
    } else if c == 42u8 || c == 126u8 || c == 37u8 {
        decode_aggregate(buf, c)
    } else if c == 95u8 || c == 35u8 {
        decode_fixed(buf, c)
    } else {
        Err(RespError::InvalidFrameType)
    }
}

/// A number for each kind of frame; `ANY_KIND` accepts every kind.
pub open spec fn value_kind(v: Value) -> u8 {
    match v {
        Value::SimpleString(_) => 0,
        Value::Error(_) => 1,
        Value::Integer(_) => 2,
        Value::BulkString(_) => 3,
        Value::Array(_) => 4,
        Value::Null => 5,
        Value::NullArray => 6,
        Value::NullBulkString => 7,
        Value::Boolean(_) => 8,
        Value::Double(..) => 9,
        Value::RespMap(_) => 10,
        Value::RespSet(_) => 11,
    }
}

pub const ANY_KIND: u8 = 12;

/// What decoding a buffer does: on a frame of the wanted kind, its model comes
/// back and exactly its bytes leave the buffer; otherwise the buffer stays as
/// it was (a frame of another kind is `InvalidFrameType`).
pub open spec fn decode_outcome(old_bytes: Seq<u8>, new_bytes: Seq<u8>, kind: u8, rv: Result<Value, RespError>) -> bool {
    match parse(old_bytes) {
        Ok((v, n)) => if kind == ANY_KIND || value_kind(v) == kind {
            rv == Ok::<Value, RespError>(v) && new_bytes == old_bytes.skip(n as int)
        } else {
            rv == Err::<Value, RespError>(RespError::InvalidFrameType) && new_bytes == old_bytes
        },
        Err(x) => rv == Err::<Value, RespError>(x) && new_bytes == old_bytes,
    }
}

fn frame_kind(f: &RespFrame) -> (r: u8)
    ensures
        r == value_kind(f.view()),
{
    match f {
        RespFrame::SimpleString(_) => 0,
        RespFrame::Error(_) => 1,
        RespFrame::Integer(_) => 2,
        RespFrame::BulkString(_) => 3,
        RespFrame::Array(_) => 4,
        RespFrame::Null(_) => 5,
        RespFrame::NullArray(_) => 6,
        RespFrame::NullBulkString(_) => 7,
        RespFrame::Boolean(_) => 8,
        RespFrame::Double(_) => 9,
        RespFrame::RespMap(_) => 10,
        RespFrame::RespSet(_) => 11,
    }
}

pub open spec fn frame_result_view(r: Result<RespFrame, RespError>) -> Result<Value, RespError> {
    match r {
        Ok(f) => Ok(f.view()),
        Err(x) => Err(x),
    }
}

/// Takes one frame of the given kind from the front of `buf`.
fn take_frame(buf: &mut BytesMut, kind: u8) -> (r: Result<RespFrame, RespError>)
    ensures
        decode_outcome(buffer_bytes(*old(buf)), buffer_bytes(*final(buf)), kind, frame_result_view(r)),
{
    let (f, k) = {
        let s = buffer_slice(buf);
        match decode_frame(s) {
            Ok(x) => x,
            Err(x) => return Err(x),
        }
    };
    if kind != ANY_KIND && frame_kind(&f) != kind {
        return Err(RespError::InvalidFrameType);
    }
    buffer_advance(buf, k);
    Ok(f)
}

impl RespFrame {
    /// Decodes the first frame of `buf` and removes its bytes. On any error,
    /// `NotComplete` included, `buf` is left as it was.
    pub fn decode(buf: &mut BytesMut) -> (r: Result<RespFrame, RespError>)
        ensures
            decode_outcome(buffer_bytes(*old(buf)), buffer_bytes(*final(buf)), ANY_KIND, frame_result_view(r)),
    {
        take_frame(buf, ANY_KIND)
    }
}

impl SimpleString {
    pub fn decode(buf: &mut BytesMut) -> (r: Result<SimpleString, RespError>)
        ensures
            decode_outcome(buffer_bytes(*old(buf)), buffer_bytes(*final(buf)), 0,
                match r { Ok(x) => Ok(Value::SimpleString(x.0@)), Err(x) => Err(x) }),
    {
        match take_frame(buf, 0) {
            Ok(RespFrame::SimpleString(x)) => Ok(x),
            Ok(_) => Err(RespError::InvalidFrameType),
            Err(x) => Err(x),
        }
    }
}

impl SimpleError {
    pub fn decode(buf: &mut BytesMut) -> (r: Result<SimpleError, RespError>)
        ensures
            decode_outcome(buffer_bytes(*old(buf)), buffer_bytes(*final(buf)), 1,
                match r { Ok(x) => Ok(Value::Error(x.0@)), Err(x) => Err(x) }),
    {
        match take_frame(buf, 1) {
            Ok(RespFrame::Error(x)) => Ok(x),
            Ok(_) => Err(RespError::InvalidFrameType),
            Err(x) => Err(x),
        }
    }
}

/// Decodes an integer frame.
pub fn decode_integer(buf: &mut BytesMut) -> (r: Result<i64, RespError>)
    ensures
        decode_outcome(buffer_bytes(*old(buf)), buffer_bytes(*final(buf)), 2,
            match r { Ok(x) => Ok(Value::Integer(x as int)), Err(x) => Err(x) }),
{
    match take_frame(buf, 2) {
        Ok(RespFrame::Integer(x)) => Ok(x),
        Ok(_) => Err(RespError::InvalidFrameType),
        Err(x) => Err(x),
    }
}

impl BulkString {
    pub fn decode(buf: &mut BytesMut) -> (r: Result<BulkString, RespError>)
        ensures
            decode_outcome(buffer_bytes(*old(buf)), buffer_bytes(*final(buf)), 3,
                match r { Ok(x) => Ok(Value::BulkString(x.0@)), Err(x) => Err(x) }),
    {
        match take_frame(buf, 3) {
            Ok(RespFrame::BulkString(x)) => Ok(x),
            Ok(_) => Err(RespError::InvalidFrameType),
            Err(x) => Err(x),
        }
    }
}

impl RespArray {
    pub fn decode(buf: &mut BytesMut) -> (r: Result<RespArray, RespError>)
        ensures
            decode_outcome(buffer_bytes(*old(buf)), buffer_bytes(*final(buf)), 4,
                match r { Ok(x) => Ok(RespFrame::Array(x).view()), Err(x) => Err(x) }),
    {
        match take_frame(buf, 4) {
            Ok(RespFrame::Array(x)) => Ok(x),
            Ok(_) => Err(RespError::InvalidFrameType),
            Err(x) => Err(x),
        }
    }
}

impl RespNull {
    pub fn decode(buf: &mut BytesMut) -> (r: Result<RespNull, RespError>)
        ensures
            decode_outcome(buffer_bytes(*old(buf)), buffer_bytes(*final(buf)), 5,
                match r { Ok(x) => Ok(Value::Null), Err(x) => Err(x) }),
    {
        match take_frame(buf, 5) {
            Ok(RespFrame::Null(x)) => Ok(x),
            Ok(_) => Err(RespError::InvalidFrameType),
            Err(x) => Err(x),
        }
    }
}

impl RespNullArray {
    pub fn decode(buf: &mut BytesMut) -> (r: Result<RespNullArray, RespError>)
        ensures
            decode_outcome(buffer_bytes(*old(buf)), buffer_bytes(*final(buf)), 6,
                match r { Ok(x) => Ok(Value::NullArray), Err(x) => Err(x) }),
    {
        match take_frame(buf, 6) {
            Ok(RespFrame::NullArray(x)) => Ok(x),
            Ok(_) => Err(RespError::InvalidFrameType),
            Err(x) => Err(x),
        }
    }
}

impl RespNullBulkString {
    pub fn decode(buf: &mut BytesMut) -> (r: Result<RespNullBulkString, RespError>)
        ensures
            decode_outcome(buffer_bytes(*old(buf)), buffer_bytes(*final(buf)), 7,
                match r { Ok(x) => Ok(Value::NullBulkString), Err(x) => Err(x) }),
    {
        match take_frame(buf, 7) {
            Ok(RespFrame::NullBulkString(x)) => Ok(x),
            Ok(_) => Err(RespError::InvalidFrameType),
            Err(x) => Err(x),
        }
    }
}

/// Decodes a boolean frame.
pub fn decode_boolean(buf: &mut BytesMut) -> (r: Result<bool, RespError>)
    ensures
        decode_outcome(buffer_bytes(*old(buf)), buffer_bytes(*final(buf)), 8,
            match r { Ok(x) => Ok(Value::Boolean(x)), Err(x) => Err(x) }),
{
    match take_frame(buf, 8) {
        Ok(RespFrame::Boolean(x)) => Ok(x),
        Ok(_) => Err(RespError::InvalidFrameType),
        Err(x) => Err(x),
    }
}

impl RespDouble {
    pub fn decode(buf: &mut BytesMut) -> (r: Result<RespDouble, RespError>)
        ensures
            decode_outcome(buffer_bytes(*old(buf)), buffer_bytes(*final(buf)), 9,
                match r { Ok(x) => Ok(Value::Double(x.view().0, x.view().1, x.view().2)), Err(x) => Err(x) }),
    {
        match take_frame(buf, 9) {
            Ok(RespFrame::Double(x)) => Ok(x),
            Ok(_) => Err(RespError::InvalidFrameType),
            Err(x) => Err(x),
        }
    }
}

impl RespMap {
    pub fn decode(buf: &mut BytesMut) -> (r: Result<RespMap, RespError>)
        ensures
            decode_outcome(buffer_bytes(*old(buf)), buffer_bytes(*final(buf)), 10,
                match r { Ok(x) => Ok(RespFrame::RespMap(x).view()), Err(x) => Err(x) }),
    {
        match take_frame(buf, 10) {
            Ok(RespFrame::RespMap(x)) => Ok(x),
            Ok(_) => Err(RespError::InvalidFrameType),
            Err(x) => Err(x),
        }
    }
}

impl RespSet {
    pub fn decode(buf: &mut BytesMut) -> (r: Result<RespSet, RespError>)
        ensures
            decode_outcome(buffer_bytes(*old(buf)), buffer_bytes(*final(buf)), 11,
                match r { Ok(x) => Ok(RespFrame::RespSet(x).view()), Err(x) => Err(x) }),
    {
        match take_frame(buf, 11) {
            Ok(RespFrame::RespSet(x)) => Ok(x),
            Ok(_) => Err(RespError::InvalidFrameType),
            Err(x) => Err(x),
        }
    }
}

} // verus!
