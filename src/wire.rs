//! The wire format as spec functions: what each frame encodes to, how much
//! of a buffer the first frame takes (the measurement pass) and what the
//! buffer decodes to (the consume pass).
use vstd::prelude::*;
use vstd::utf8::encode_utf8;
use crate::frame::{RespError, Value};
use crate::number::{nat_digits, int_text, parse_unsigned, parse_signed};
use crate::double::{double_text, parse_double};
use crate::buffer::lossy_text;

verus! {

pub open spec fn crlf() -> Seq<u8> {
    seq![13u8, 10u8]
}

pub open spec fn null_bulk_lit() -> Seq<u8> {
    seq![36u8, 45u8, 49u8, 13u8, 10u8]
}

pub open spec fn null_array_lit() -> Seq<u8> {
    seq![42u8, 45u8, 49u8, 13u8, 10u8]
}

pub open spec fn null_lit() -> Seq<u8> {
    seq![95u8, 13u8, 10u8]
}

pub open spec fn true_lit() -> Seq<u8> {
    seq![35u8, 116u8, 13u8, 10u8]
}

pub open spec fn false_lit() -> Seq<u8> {
    seq![35u8, 102u8, 13u8, 10u8]
}

/// A line frame: prefix, text, CRLF.
pub open spec fn line(prefix: u8, text: Seq<u8>) -> Seq<u8> {
    seq![prefix] + text + crlf()
}

pub open spec fn encode_value(v: Value) -> Seq<u8>
    decreases v,
{
    match v {
        Value::SimpleString(s) => line(43u8, encode_utf8(s)),
        Value::Error(s) => line(45u8, encode_utf8(s)),
        Value::Integer(i) => line(58u8, int_text(i)),
        Value::BulkString(b) => line(36u8, nat_digits(b.len())) + b + crlf(),
        Value::Array(xs) => line(42u8, nat_digits(xs.len())) + encode_seq(xs),
        Value::Null => null_lit(),
        Value::NullArray => null_array_lit(),
        Value::NullBulkString => null_bulk_lit(),
        Value::Boolean(b) => if b { true_lit() } else { false_lit() },
        Value::Double(neg, m, e) => line(44u8, double_text(neg, m, e)),
        Value::RespMap(es) => line(37u8, nat_digits(es.len())) + encode_entries(es),
        Value::RespSet(xs) => line(126u8, nat_digits(xs.len())) + encode_seq(xs),
    }
}

/// The elements' encodings, one after the other.
pub open spec fn encode_seq(xs: Seq<Value>) -> Seq<u8>
    decreases xs,
{
    if xs.len() == 0 {
        Seq::empty()
    } else {
        encode_value(xs[0]) + encode_seq(xs.drop_first())
    }
}

/// Each entry: its key as a simple string, then its value.
pub open spec fn encode_entries(es: Seq<(Seq<char>, Value)>) -> Seq<u8>
    decreases es,
{
    if es.len() == 0 {
        Seq::empty()
    } else {
        line(43u8, encode_utf8(es[0].0)) + encode_value(es[0].1) + encode_entries(es.drop_first())
    }
}

/// Position of the `n`-th CRLF (counting from one) at or after `i`.
pub open spec fn crlf_scan(s: Seq<u8>, i: int, n: int) -> Option<int>
    decreases s.len() - i,
{
    if n <= 0 || i < 0 || i + 1 >= s.len() {
        None
    } else if s[i] == 13u8 && s[i + 1] == 10u8 {
        if n == 1 { Some(i) } else { crlf_scan(s, i + 1, n - 1) }
    } else {
        crlf_scan(s, i + 1, n)
    }
}

/// Where the first line of `s` ends, for a frame with this prefix.
pub open spec fn line_end(s: Seq<u8>, prefix: u8) -> Result<int, RespError> {
    if s.len() < 3 {
        Err(RespError::NotComplete)
    } else if s[0] != prefix {
        Err(RespError::InvalidFrameType)
    } else {
        match crlf_scan(s, 0, 1) {
            Some(e) => if 0 <= e && e + 2 <= s.len() { Ok(e) } else { Err(RespError::NotComplete) },
            None => Err(RespError::NotComplete),
        }
    }
}

/// A length header: where it ends, and the length it declares.
pub open spec fn header(s: Seq<u8>, prefix: u8) -> Result<(int, nat), RespError> {
    match line_end(s, prefix) {
        Err(x) => Err(x),
        Ok(e) => if e < 1 {
            // the line ends right at the prefix: no digits
            Err(RespError::ParseIntError)
        } else {
            match parse_unsigned(s.subrange(1, e)) {
                None => Err(RespError::ParseIntError),
                Some(n) => Ok((e, n)),
            }
        },
    }
}

pub open spec fn starts_with(s: Seq<u8>, lit: Seq<u8>) -> bool {
    s.len() >= lit.len() && s.take(lit.len() as int) == lit
}

/// `s` is a proper beginning of `lit`.
pub open spec fn begins(s: Seq<u8>, lit: Seq<u8>) -> bool {
    s.len() < lit.len() && s == lit.take(s.len() as int)
}

pub open spec fn is_line_prefix(c: u8) -> bool {
    c == 43u8 || c == 45u8 || c == 58u8 || c == 44u8
}

pub open spec fn is_aggregate_prefix(c: u8) -> bool {
    c == 42u8 || c == 126u8 || c == 37u8
}

/// Length of a bulk string frame (not the null literal).
pub open spec fn bulk_length(s: Seq<u8>) -> Result<nat, RespError> {
    match header(s, 36u8) {
        Err(x) => Err(x),
        Ok((e, n)) => if e + 2 + n + 2 > s.len() {
            Err(RespError::NotComplete)
        } else {
            Ok((e + 2 + n + 2) as nat)
        },
    }
}

/// The measurement pass: how many bytes the first frame of `s` takes, read
/// from prefixes and declared lengths only.
pub open spec fn measure(s: Seq<u8>) -> Result<nat, RespError>
    decreases s.len(), 0nat, 0nat,
{
    if s.len() == 0 {
        Err(RespError::NotComplete)
    } else {
        let c = s[0];
        if is_line_prefix(c) {
            match line_end(s, c) {
                Ok(e) => Ok((e + 2) as nat),
                Err(x) => Err(x),
            }
        } else if c == 36u8 {
            if starts_with(s, null_bulk_lit()) {
                Ok(5)
            } else if begins(s, null_bulk_lit()) {
                Err(RespError::NotComplete)
            } else {
                bulk_length(s)
            }
        } else if is_aggregate_prefix(c) {
            if c == 42u8 && starts_with(s, null_array_lit()) {
                Ok(5)
            } else if c == 42u8 && begins(s, null_array_lit()) {
                Err(RespError::NotComplete)
            } else {
                match header(s, c) {
                    Err(x) => Err(x),
                    Ok((e, n)) => match measure_items(s.skip(e + 2), n, c == 37u8) {
                        Err(x) => Err(x),
                        Ok(k) => Ok((e + 2 + k) as nat),
                    },
                }
            }
        } else if c == 95u8 {
            if s.len() < 3 { Err(RespError::NotComplete) } else { Ok(3) }
        } else if c == 35u8 {
            if s.len() < 4 { Err(RespError::NotComplete) } else { Ok(4) }
        } else {
            Err(RespError::InvalidFrameType)
        }
    }
}

/// Length of one element of an aggregate: a frame, or for a map a simple
/// string key followed by a frame.
pub open spec fn measure_item(s: Seq<u8>, pairs: bool) -> Result<nat, RespError>
    decreases s.len(), 1nat, 0nat,
{
    if pairs {
        match line_end(s, 43u8) {
            Err(x) => Err(x),
            Ok(e) => match measure(s.skip(e + 2)) {
                Err(x) => Err(x),
                Ok(k) => Ok((e + 2 + k) as nat),
            },
        }
    } else {
        measure(s)
    }
}

/// Total length of `n` elements at the start of `s`.
pub open spec fn measure_items(s: Seq<u8>, n: nat, pairs: bool) -> Result<nat, RespError>
    decreases s.len(), 2nat, n,
{
    if n == 0 {
        Ok(0)
    } else {
        match measure_item(s, pairs) {
            Err(x) => Err(x),
            Ok(k) => if k > s.len() {
                Err(RespError::NotComplete)
            } else {
                match measure_items(s.skip(k as int), (n - 1) as nat, pairs) {
                    Err(x) => Err(x),
                    Ok(r) => Ok(k + r),
                }
            },
        }
    }
}

/// Where `k` goes in entries kept in key order: the first position from `i`
/// whose key is not below `k`.
pub open spec fn lower_bound(es: Seq<(Seq<char>, Value)>, k: Seq<char>, i: int) -> int
    decreases es.len() - i,
{
    if i < 0 || i >= es.len() {
        es.len() as int
    } else if crate::frame::key_lt(es[i].0, k) {
        lower_bound(es, k, i + 1)
    } else {
        i
    }
}

/// Inserting into entries kept in key order; an equal key is overwritten.
pub open spec fn map_insert(es: Seq<(Seq<char>, Value)>, k: Seq<char>, v: Value) -> Seq<(Seq<char>, Value)> {
    let p = lower_bound(es, k, 0);
    if p < es.len() && es[p].0 == k {
        es.update(p, (k, v))
    } else {
        es.insert(p, (k, v))
    }
}

/// The map that a list of entries builds, inserted in order.
pub open spec fn entries_map(list: Seq<(Seq<char>, Value)>) -> Seq<(Seq<char>, Value)>
    decreases list.len(),
{
    if list.len() == 0 {
        Seq::empty()
    } else {
        map_insert(entries_map(list.drop_last()), list.last().0, list.last().1)
    }
}

/// The consume pass: the first frame of `s` and the bytes it takes.
pub open spec fn parse(s: Seq<u8>) -> Result<(Value, nat), RespError>
    decreases s.len(), 0nat, 0nat,
{
    if s.len() == 0 {
        Err(RespError::NotComplete)
    } else {
        let c = s[0];
        if c == 43u8 || c == 45u8 {
            match line_end(s, c) {
                Err(x) => Err(x),
                Ok(e) => {
                    let text = lossy_text(s.subrange(1, e));
                    Ok((if c == 43u8 { Value::SimpleString(text) } else { Value::Error(text) }, (e + 2) as nat))
                },
            }
        } else if c == 58u8 {
            match line_end(s, c) {
                Err(x) => Err(x),
                Ok(e) => match parse_signed(s.subrange(1, e)) {
                    None => Err(RespError::ParseIntError),
                    Some(i) => Ok((Value::Integer(i), (e + 2) as nat)),
                },
            }
        } else if c == 44u8 {
            match line_end(s, c) {
                Err(x) => Err(x),
                Ok(e) => match parse_double(s.subrange(1, e)) {
                    None => Err(RespError::ParseDoubleError),
                    Some((neg, m, x)) => Ok((Value::Double(neg, m, x), (e + 2) as nat)),
                },
            }
        } else if c == 36u8 {
            if starts_with(s, null_bulk_lit()) {
                Ok((Value::NullBulkString, 5))
            } else if begins(s, null_bulk_lit()) {
                Err(RespError::NotComplete)
            } else {
                match header(s, 36u8) {
                    Err(x) => Err(x),
                    Ok((e, n)) => if e + 2 + n + 2 > s.len() {
                        Err(RespError::NotComplete)
                    } else {
                        Ok((Value::BulkString(s.subrange(e + 2, e + 2 + n)), (e + 2 + n + 2) as nat))
                    },
                }
            }
        } else if is_aggregate_prefix(c) {
            if c == 42u8 && starts_with(s, null_array_lit()) {
                Ok((Value::NullArray, 5))
            } else if c == 42u8 && begins(s, null_array_lit()) {
                Err(RespError::NotComplete)
            } else {
                match measure(s) {
                    Err(x) => Err(x),
                    Ok(_) => match header(s, c) {
                        Err(x) => Err(x),
                        Ok((e, n)) => if c == 37u8 {
                            match parse_entries(s.skip(e + 2), n) {
                                Err(x) => Err(x),
                                Ok((list, k)) => Ok((Value::RespMap(entries_map(list)), (e + 2 + k) as nat)),
                            }
                        } else {
                            match parse_items(s.skip(e + 2), n) {
                                Err(x) => Err(x),
                                Ok((xs, k)) => Ok((if c == 42u8 { Value::Array(xs) } else { Value::RespSet(xs) }, (e + 2 + k) as nat)),
                            }
                        },
                    },
                }
            }
        } else if c == 95u8 {
            if s.len() < 3 {
                Err(RespError::NotComplete)
            } else if starts_with(s, null_lit()) {
                Ok((Value::Null, 3))
            } else {
                Err(RespError::InvalidFrameType)
            }
        } else if c == 35u8 {
            if s.len() < 4 {
                Err(RespError::NotComplete)
            } else if starts_with(s, true_lit()) {
                Ok((Value::Boolean(true), 4))
            } else if starts_with(s, false_lit()) {
                Ok((Value::Boolean(false), 4))
            } else {
                Err(RespError::InvalidFrameType)
            }
        } else {
            Err(RespError::InvalidFrameType)
        }
    }
}

/// `n` frames one after the other.
pub open spec fn parse_items(s: Seq<u8>, n: nat) -> Result<(Seq<Value>, nat), RespError>
    decreases s.len(), 1nat, n,
{
    if n == 0 {
        Ok((Seq::empty(), 0))
    } else {
        match parse(s) {
            Err(x) => Err(x),
            Ok((v, k)) => if k > s.len() {
                Err(RespError::NotComplete)
            } else {
                match parse_items(s.skip(k as int), (n - 1) as nat) {
                    Err(x) => Err(x),
                    Ok((rest, r)) => Ok((seq![v] + rest, k + r)),
                }
            },
        }
    }
}

/// `n` map entries, each a simple string key and a frame, in wire order.
pub open spec fn parse_entries(s: Seq<u8>, n: nat) -> Result<(Seq<(Seq<char>, Value)>, nat), RespError>
    decreases s.len(), 1nat, n,
{
    if n == 0 {
        Ok((Seq::empty(), 0))
    } else {
        match line_end(s, 43u8) {
            Err(x) => Err(x),
            Ok(e) => match parse(s.skip(e + 2)) {
                Err(x) => Err(x),
                Ok((v, k)) => if e + 2 + k > s.len() {
                    Err(RespError::NotComplete)
                } else {
                    let key = lossy_text(s.subrange(1, e));
                    match parse_entries(s.skip(e + 2 + k), (n - 1) as nat) {
                        Err(x) => Err(x),
                        Ok((rest, r)) => Ok((seq![(key, v)] + rest, (e + 2 + k + r) as nat)),
                    }
                },
            },
        }
    }
}

pub proof fn lemma_measure_le(s: Seq<u8>)
    ensures
        measure(s) matches Ok(k) ==> k <= s.len(),
    decreases s.len(), 0nat, 0nat,
{
    if s.len() > 0 {
        let c = s[0];
        if is_aggregate_prefix(c) {
            if let Ok((e, n)) = header(s, c) {
                lemma_measure_items_le(s.skip(e + 2), n, c == 37u8);
            }
        }
    }
}

pub proof fn lemma_measure_item_le(s: Seq<u8>, pairs: bool)
    ensures
        measure_item(s, pairs) matches Ok(k) ==> k <= s.len(),
    decreases s.len(), 1nat, 0nat,
{
    if pairs {
        if let Ok(e) = line_end(s, 43u8) {
            lemma_measure_le(s.skip(e + 2));
        }
    } else {
        lemma_measure_le(s);
    }
}

pub proof fn lemma_measure_items_le(s: Seq<u8>, n: nat, pairs: bool)
    ensures
        measure_items(s, n, pairs) matches Ok(k) ==> k <= s.len(),
    decreases s.len(), 2nat, n,
{
    if n > 0 {
        lemma_measure_item_le(s, pairs);
        if let Ok(k) = measure_item(s, pairs) {
            if k <= s.len() {
                lemma_measure_items_le(s.skip(k as int), (n - 1) as nat, pairs);
            }
        }
    }
}

/// A CRLF found from `i` on stands at `i` or later.
pub proof fn lemma_crlf_scan_from(s: Seq<u8>, i: int, n: int)
    ensures
        crlf_scan(s, i, n) matches Some(j) ==> i <= j && j + 1 < s.len() && s[j] == 13u8,
    decreases s.len() - i,
{
    if !(n <= 0 || i < 0 || i + 1 >= s.len()) {
        if !(s[i] == 13u8 && s[i + 1] == 10u8) || n != 1 {
            lemma_crlf_scan_from(s, i + 1, if s[i] == 13u8 && s[i + 1] == 10u8 { n - 1 } else { n });
        }
    }
}

/// A line ends after its prefix unless the prefix is itself a CR.
pub proof fn lemma_line_end_after_prefix(s: Seq<u8>, prefix: u8)
    ensures
        line_end(s, prefix) matches Ok(e) ==> (prefix != 13u8 ==> 1 <= e) && 0 <= e && e + 2 <= s.len(),
{
    lemma_crlf_scan_from(s, 0, 1);
}

} // verus!
