//! What holds of the encoder and the decoder together: a frame decodes back
//! from its encoding, a cut-short encoding asks for more bytes, and
//! back-to-back encodings decode one after the other.
use vstd::prelude::*;
use vstd::utf8::{encode_utf8, encode_scalar, has_width_1_encoding};
use crate::frame::{Value, RespError, simple_text};
use crate::number::{no_cr, nat_digits};
use crate::buffer::lossy_text;
use crate::wire::{crlf_scan, line_end, line, crlf, header, starts_with, begins, measure, measure_item,
    measure_items, parse, parse_items, parse_entries, encode_value, encode_seq, encode_entries,
    null_lit, null_array_lit, null_bulk_lit, true_lit, false_lit, entries_map, lower_bound,
    bulk_length};
use crate::number::{int_text, lemma_parse_unsigned_digits, lemma_parse_signed_text};
use crate::double::{double_text, double_wf};
use crate::frame::{keys_sorted, key_lt};

verus! {

proof fn lemma_high_bytes(x: u8)
    by (bit_vector)
    ensures
        (0x80u8 | x) != 13u8,
        (0xC0u8 | x) != 13u8,
        (0xE0u8 | x) != 13u8,
        (0xF0u8 | x) != 13u8,
{
}

proof fn lemma_low_byte(c: u32)
    by (bit_vector)
    requires
        c <= 0x7F,
        c != 13,
    ensures
        ((c & 0x7F) as u8) != 13u8,
{
}

pub proof fn lemma_utf8_no_cr(s: Seq<char>)
    requires
        simple_text(s),
    ensures
        no_cr(encode_utf8(s)),
    decreases s.len(),
{
    if s.len() > 0 {
        let rest = s.drop_first();
        assert(simple_text(rest)) by {
            assert forall|i: int| 0 <= i < rest.len() implies rest[i] != '\r' && rest[i] != '\n' by {
                assert(rest[i] == s[i + 1]);
            }
        }
        lemma_utf8_no_cr(rest);
        let c = s[0] as u32;
        assert(s[0] != '\r');
        assert(c != 13) by {
            if c == 13 {
                vstd::utf8::char_u32_cast(s[0], c);
                assert((13u32 as char) == '\r');
            }
        }
        let head = encode_scalar(c);
        if has_width_1_encoding(c) {
            lemma_low_byte(c);
        } else {
            lemma_high_bytes(((c >> 6) & 0x1F) as u8);
            lemma_high_bytes(((c >> 12) & 0x0F) as u8);
            lemma_high_bytes(((c >> 18) & 0x7) as u8);
            lemma_high_bytes((c & 0x3F) as u8);
            lemma_high_bytes(((c >> 6) & 0x3F) as u8);
            lemma_high_bytes(((c >> 12) & 0x3F) as u8);
        }
        assert(no_cr(head));
        let all = encode_utf8(s);
        assert(all =~= head + encode_utf8(rest));
        assert forall|i: int| 0 <= i < all.len() implies all[i] != 13u8 by {
            if i < head.len() {
                assert(all[i] == head[i]);
            } else {
                assert(all[i] == encode_utf8(rest)[i - head.len()]);
            }
        }
    }
}

pub proof fn lemma_lossy_round_trip(s: Seq<char>)
    ensures
        lossy_text(encode_utf8(s)) == s,
{
    vstd::utf8::encode_utf8_valid_utf8(s);
    vstd::utf8::encode_utf8_decode_utf8(s);
}

proof fn lemma_scan_to(s: Seq<u8>, i: int, j: int)
    requires
        0 <= i <= j,
        j + 1 < s.len(),
        s[j] == 13u8,
        s[j + 1] == 10u8,
        forall|m: int| i <= m < j ==> s[m] != 13u8,
    ensures
        crlf_scan(s, i, 1) == Some(j),
    decreases j - i,
{
    if i < j {
        lemma_scan_to(s, i + 1, j);
    }
}

proof fn lemma_scan_none(s: Seq<u8>, i: int)
    requires
        0 <= i,
        forall|m: int| i <= m < s.len() - 1 ==> s[m] != 13u8,
    ensures
        crlf_scan(s, i, 1) is None,
    decreases s.len() - i,
{
    if i + 1 < s.len() {
        lemma_scan_none(s, i + 1);
    }
}

/// A line frame followed by anything: its line ends at its own CRLF.
pub proof fn lemma_line_end(c: u8, text: Seq<u8>, r: Seq<u8>)
    requires
        c != 13u8,
        no_cr(text),
    ensures
        line_end(line(c, text) + r, c) == Ok::<int, RespError>(text.len() + 1 as int),
        (line(c, text) + r).subrange(1, text.len() + 1 as int) == text,
        (line(c, text) + r).skip(text.len() + 3 as int) == r,
{
    let s = line(c, text) + r;
    let j = text.len() + 1 as int;
    assert forall|m: int| 0 <= m < j implies s[m] != 13u8 by {
        if m > 0 {
            assert(s[m] == text[m - 1]);
        }
    }
    lemma_scan_to(s, 0, j);
    assert(s.subrange(1, text.len() + 1 as int) =~= text);
    assert(s.skip(text.len() + 3 as int) =~= r);
}

/// A line frame cut short: no CRLF yet.
pub proof fn lemma_line_end_prefix(c: u8, text: Seq<u8>, k: int)
    requires
        c != 13u8,
        no_cr(text),
        0 <= k < line(c, text).len(),
    ensures
        line_end(line(c, text).take(k), c) == Err::<int, RespError>(RespError::NotComplete),
{
    let t = line(c, text).take(k);
    if k >= 3 {
        assert(t[0] == c);
        assert forall|m: int| 0 <= m < t.len() - 1 implies t[m] != 13u8 by {
            if m > 0 {
                assert(t[m] == text[m - 1]);
            }
        }
        lemma_scan_none(t, 0);
    }
}

pub open spec fn items_wf(xs: Seq<Value>) -> bool {
    forall|i: int| 0 <= i < xs.len() ==> (#[trigger] xs[i]).wf()
}

pub open spec fn entries_wf(es: Seq<(Seq<char>, Value)>) -> bool {
    forall|i: int| 0 <= i < es.len() ==> simple_text((#[trigger] es[i]).0) && es[i].1.wf()
}

proof fn lemma_items_wf_rest(xs: Seq<Value>)
    requires
        items_wf(xs),
        xs.len() > 0,
    ensures
        items_wf(xs.drop_first()),
        xs[0].wf(),
{
    assert forall|i: int| 0 <= i < xs.drop_first().len() implies (#[trigger] xs.drop_first()[i]).wf() by {
        assert(xs.drop_first()[i] == xs[i + 1]);
    }
}

proof fn lemma_entries_wf_rest(es: Seq<(Seq<char>, Value)>)
    requires
        entries_wf(es),
        es.len() > 0,
    ensures
        entries_wf(es.drop_first()),
        simple_text(es[0].0),
        es[0].1.wf(),
{
    assert forall|i: int| 0 <= i < es.drop_first().len() implies simple_text((#[trigger] es.drop_first()[i]).0)
        && es.drop_first()[i].1.wf() by {
        assert(es.drop_first()[i] == es[i + 1]);
    }
}

/// A length header followed by anything.
proof fn lemma_header(c: u8, n: nat, r: Seq<u8>)
    requires
        c != 13u8,
        n <= usize::MAX,
    ensures
        header(line(c, nat_digits(n)) + r, c) == Ok::<(int, nat), RespError>((nat_digits(n).len() + 1 as int, n)),
        (line(c, nat_digits(n)) + r).skip(nat_digits(n).len() + 3 as int) == r,
        (line(c, nat_digits(n)) + r)[1] != 45u8,
        (line(c, nat_digits(n)) + r).len() >= 4,
{
    lemma_parse_unsigned_digits(n);
    lemma_line_end(c, nat_digits(n), r);
    assert((line(c, nat_digits(n)) + r)[1] == nat_digits(n)[0]);
}

/// A buffer that differs from a literal at its second byte neither starts
/// with it nor begins it.
proof fn lemma_not_lit(s: Seq<u8>, lit: Seq<u8>)
    requires
        s.len() >= 2,
        lit.len() >= 2,
        s[1] != lit[1],
    ensures
        !starts_with(s, lit),
        !begins(s, lit),
{
    if s.len() >= lit.len() {
        assert(s.take(lit.len() as int)[1] == s[1]);
    }
    if s.len() < lit.len() {
        assert(lit.take(s.len() as int)[1] == lit[1]);
    }
}

proof fn lemma_starts_lit(lit: Seq<u8>, r: Seq<u8>)
    ensures
        starts_with(lit + r, lit),
{
    assert((lit + r).take(lit.len() as int) =~= lit);
}

proof fn lemma_measure_line(c: u8, text: Seq<u8>, r: Seq<u8>)
    requires
        crate::wire::is_line_prefix(c),
        no_cr(text),
    ensures
        measure(line(c, text) + r) == Ok::<nat, RespError>(line(c, text).len()),
{
    lemma_line_end(c, text, r);
    assert((line(c, text) + r)[0] == c);
}

proof fn lemma_measure_bulk(b: Seq<u8>, r: Seq<u8>)
    requires
        b.len() <= usize::MAX,
    ensures
        measure(encode_value(Value::BulkString(b)) + r) == Ok::<nat, RespError>(encode_value(Value::BulkString(b)).len()),
{
    let s = encode_value(Value::BulkString(b)) + r;
    let d = nat_digits(b.len());
    assert(s =~= line(36u8, d) + (b + crlf() + r));
    lemma_header(36u8, b.len(), b + crlf() + r);
    lemma_not_lit(s, null_bulk_lit());
    assert(s[0] == 36u8);
    assert(bulk_length(s) == Ok::<nat, RespError>(encode_value(Value::BulkString(b)).len()));
}

proof fn lemma_measure_aggregate(c: u8, n: nat, body: Seq<u8>, r: Seq<u8>, k: nat)
    requires
        crate::wire::is_aggregate_prefix(c),
        n <= usize::MAX,
        measure_items(body + r, n, c == 37u8) == Ok::<nat, RespError>(k),
        k == body.len(),
    ensures
        measure(line(c, nat_digits(n)) + body + r) == Ok::<nat, RespError>((line(c, nat_digits(n)) + body).len()),
{
    let s = line(c, nat_digits(n)) + body + r;
    assert(s =~= line(c, nat_digits(n)) + (body + r));
    lemma_header(c, n, body + r);
    lemma_not_lit(s, null_array_lit());
    assert(s[0] == c);
}

#[verifier::rlimit(100)]
pub proof fn lemma_measure_value(v: Value, r: Seq<u8>)
    requires
        v.wf(),
    ensures
        measure(encode_value(v) + r) == Ok::<nat, RespError>(encode_value(v).len()),
    decreases v, 1nat,
{
    match v {
        Value::SimpleString(t) => {
            lemma_utf8_no_cr(t);
            lemma_measure_line(43u8, encode_utf8(t), r);
        },
        Value::Error(t) => {
            lemma_utf8_no_cr(t);
            lemma_measure_line(45u8, encode_utf8(t), r);
        },
        Value::Integer(i) => {
            lemma_parse_signed_text(i);
            lemma_measure_line(58u8, int_text(i), r);
        },
        Value::Double(neg, m, e) => {
            crate::double::lemma_double_round_trip(neg, m, e);
            lemma_measure_line(44u8, double_text(neg, m, e), r);
        },
        Value::BulkString(b) => {
            lemma_measure_bulk(b, r);
        },
        Value::Array(xs) => {
            lemma_measure_seq(xs, r);
            lemma_measure_aggregate(42u8, xs.len(), encode_seq(xs), r, encode_seq(xs).len());
        },
        Value::RespSet(xs) => {
            lemma_measure_seq(xs, r);
            lemma_measure_aggregate(126u8, xs.len(), encode_seq(xs), r, encode_seq(xs).len());
        },
        Value::RespMap(es) => {
            lemma_measure_entries(es, r);
            lemma_measure_aggregate(37u8, es.len(), encode_entries(es), r, encode_entries(es).len());
        },
        Value::NullArray => {
            lemma_starts_lit(null_array_lit(), r);
        },
        Value::NullBulkString => {
            lemma_starts_lit(null_bulk_lit(), r);
        },
        _ => {},
    }
}

#[verifier::rlimit(100)]
pub proof fn lemma_measure_seq(xs: Seq<Value>, r: Seq<u8>)
    requires
        items_wf(xs),
    ensures
        measure_items(encode_seq(xs) + r, xs.len(), false) == Ok::<nat, RespError>(encode_seq(xs).len()),
    decreases xs, 0nat,
{
    if xs.len() > 0 {
        lemma_items_wf_rest(xs);
        let rest = xs.drop_first();
        let s = encode_seq(xs) + r;
        let k = encode_value(xs[0]).len();
        assert(s =~= encode_value(xs[0]) + (encode_seq(rest) + r));
        lemma_measure_value(xs[0], encode_seq(rest) + r);
        assert(measure_item(s, false) == Ok::<nat, RespError>(k));
        assert(s.skip(k as int) =~= encode_seq(rest) + r);
        lemma_measure_seq(rest, r);
        assert(measure_items(s.skip(k as int), (xs.len() - 1) as nat, false) == Ok::<nat, RespError>(encode_seq(rest).len()));
    } else {
        assert(encode_seq(xs) =~= Seq::<u8>::empty());
    }
}

#[verifier::rlimit(100)]
pub proof fn lemma_measure_entries(es: Seq<(Seq<char>, Value)>, r: Seq<u8>)
    requires
        entries_wf(es),
    ensures
        measure_items(encode_entries(es) + r, es.len(), true) == Ok::<nat, RespError>(encode_entries(es).len()),
    decreases es, 0nat,
{
    if es.len() > 0 {
        lemma_entries_wf_rest(es);
        let rest = es.drop_first();
        let s = encode_entries(es) + r;
        let key = encode_utf8(es[0].0);
        let tail = encode_value(es[0].1) + (encode_entries(rest) + r);
        assert(s =~= line(43u8, key) + tail);
        lemma_utf8_no_cr(es[0].0);
        lemma_line_end(43u8, key, tail);
        lemma_measure_value(es[0].1, encode_entries(rest) + r);
        let k: int = key.len() + 3 + encode_value(es[0].1).len() as int;
        assert(measure_item(s, true) == Ok::<nat, RespError>(k as nat));
        assert(s.skip(k) =~= encode_entries(rest) + r);
        lemma_measure_entries(rest, r);
        assert(measure_items(s.skip(k), (es.len() - 1) as nat, true) == Ok::<nat, RespError>(encode_entries(rest).len()));
    } else {
        assert(encode_entries(es) =~= Seq::<u8>::empty());
    }
}

proof fn lemma_parse_text_line(c: u8, t: Seq<char>, r: Seq<u8>)
    requires
        c == 43u8 || c == 45u8,
        simple_text(t),
    ensures
        parse(line(c, encode_utf8(t)) + r) == Ok::<(Value, nat), RespError>((
            if c == 43u8 { Value::SimpleString(t) } else { Value::Error(t) },
            line(c, encode_utf8(t)).len(),
        )),
{
    lemma_utf8_no_cr(t);
    lemma_line_end(c, encode_utf8(t), r);
    lemma_lossy_round_trip(t);
    assert((line(c, encode_utf8(t)) + r)[0] == c);
}

proof fn lemma_parse_integer(i: int, r: Seq<u8>)
    requires
        i64::MIN <= i <= i64::MAX,
    ensures
        parse(line(58u8, int_text(i)) + r) == Ok::<(Value, nat), RespError>((Value::Integer(i), line(58u8, int_text(i)).len())),
{
    lemma_parse_signed_text(i);
    lemma_line_end(58u8, int_text(i), r);
    assert((line(58u8, int_text(i)) + r)[0] == 58u8);
}

proof fn lemma_parse_double(neg: bool, m: nat, e: int, r: Seq<u8>)
    requires
        double_wf(neg, m, e),
    ensures
        parse(line(44u8, double_text(neg, m, e)) + r) == Ok::<(Value, nat), RespError>((Value::Double(neg, m, e),
            line(44u8, double_text(neg, m, e)).len())),
{
    crate::double::lemma_double_round_trip(neg, m, e);
    lemma_line_end(44u8, double_text(neg, m, e), r);
    assert((line(44u8, double_text(neg, m, e)) + r)[0] == 44u8);
}

#[verifier::rlimit(100)]
proof fn lemma_parse_bulk(b: Seq<u8>, r: Seq<u8>)
    requires
        b.len() <= usize::MAX,
    ensures
        parse(encode_value(Value::BulkString(b)) + r) == Ok::<(Value, nat), RespError>((Value::BulkString(b),
            encode_value(Value::BulkString(b)).len())),
{
    let s = encode_value(Value::BulkString(b)) + r;
    let d = nat_digits(b.len());
    assert(s =~= line(36u8, d) + (b + crlf() + r));
    lemma_header(36u8, b.len(), b + crlf() + r);
    lemma_not_lit(s, null_bulk_lit());
    assert(s[0] == 36u8);
    let e: int = d.len() + 1 as int;
    assert(s.subrange(e + 2, e + 2 + b.len() as int) =~= b);
}

#[verifier::rlimit(100)]
proof fn lemma_parse_aggregate(c: u8, n: nat, body: Seq<u8>, r: Seq<u8>, v: Value)
    requires
        crate::wire::is_aggregate_prefix(c),
        n <= usize::MAX,
        measure_items(body + r, n, c == 37u8) == Ok::<nat, RespError>(body.len()),
        c == 42u8 ==> v is Array && parse_items(body + r, n) == Ok::<(Seq<Value>, nat), RespError>((v->Array_0, body.len())),
        c == 126u8 ==> v is RespSet && parse_items(body + r, n) == Ok::<(Seq<Value>, nat), RespError>((v->RespSet_0, body.len())),
        c == 37u8 ==> v is RespMap && (match parse_entries(body + r, n) {
            Ok((list, k)) => k == body.len() && entries_map(list) == v->RespMap_0,
            Err(_) => false,
        }),
    ensures
        parse(line(c, nat_digits(n)) + body + r) == Ok::<(Value, nat), RespError>((v, (line(c, nat_digits(n)) + body).len())),
{
    let s = line(c, nat_digits(n)) + body + r;
    lemma_measure_aggregate(c, n, body, r, body.len());
    assert(s =~= line(c, nat_digits(n)) + (body + r));
    lemma_header(c, n, body + r);
    lemma_not_lit(s, null_array_lit());
    assert(s[0] == c);
}

proof fn lemma_lower_bound_end(es: Seq<(Seq<char>, Value)>, k: Seq<char>, i: int)
    requires
        0 <= i <= es.len(),
        forall|j: int| i <= j < es.len() ==> key_lt(#[trigger] es[j].0, k),
    ensures
        lower_bound(es, k, i) == es.len(),
    decreases es.len() - i,
{
    if i < es.len() {
        lemma_lower_bound_end(es, k, i + 1);
    }
}

/// Entries already in key order build themselves back.
pub proof fn lemma_entries_map_sorted(es: Seq<(Seq<char>, Value)>)
    requires
        keys_sorted(es),
    ensures
        entries_map(es) == es,
    decreases es.len(),
{
    if es.len() > 0 {
        let init = es.drop_last();
        assert(keys_sorted(init)) by {
            assert forall|i: int, j: int| 0 <= i < j < init.len() implies key_lt(#[trigger] init[i].0, #[trigger] init[j].0) by {
                assert(init[i] == es[i] && init[j] == es[j]);
            }
        }
        lemma_entries_map_sorted(init);
        let last = es.last();
        assert forall|j: int| 0 <= j < init.len() implies key_lt(#[trigger] init[j].0, last.0) by {
            assert(init[j] == es[j]);
        }
        lemma_lower_bound_end(init, last.0, 0);
        assert(init.insert(init.len() as int, (last.0, last.1)) =~= es);
    }
}

#[verifier::rlimit(100)]
pub proof fn lemma_parse_value(v: Value, r: Seq<u8>)
    requires
        v.wf(),
    ensures
        parse(encode_value(v) + r) == Ok::<(Value, nat), RespError>((v, encode_value(v).len())),
    decreases v, 1nat,
{
    match v {
        Value::SimpleString(t) => {
            lemma_parse_text_line(43u8, t, r);
        },
        Value::Error(t) => {
            lemma_parse_text_line(45u8, t, r);
        },
        Value::Integer(i) => {
            lemma_parse_integer(i, r);
        },
        Value::Double(neg, m, e) => {
            lemma_parse_double(neg, m, e, r);
        },
        Value::BulkString(b) => {
            lemma_parse_bulk(b, r);
        },
        Value::Array(xs) => {
            lemma_measure_seq(xs, r);
            lemma_parse_seq(xs, r);
            lemma_parse_aggregate(42u8, xs.len(), encode_seq(xs), r, v);
        },
        Value::RespSet(xs) => {
            lemma_measure_seq(xs, r);
            lemma_parse_seq(xs, r);
            lemma_parse_aggregate(126u8, xs.len(), encode_seq(xs), r, v);
        },
        Value::RespMap(es) => {
            lemma_measure_entries(es, r);
            lemma_parse_entries(es, r);
            lemma_entries_map_sorted(es);
            lemma_parse_aggregate(37u8, es.len(), encode_entries(es), r, v);
        },
        Value::Null => {
            lemma_starts_lit(null_lit(), r);
        },
        Value::NullArray => {
            lemma_starts_lit(null_array_lit(), r);
        },
        Value::NullBulkString => {
            lemma_starts_lit(null_bulk_lit(), r);
        },
        Value::Boolean(b) => {
            lemma_starts_lit(true_lit(), r);
            lemma_starts_lit(false_lit(), r);
            if !b {
                assert((false_lit() + r).take(4)[1] != true_lit()[1]);
            }
        },
    }
}

#[verifier::rlimit(100)]
pub proof fn lemma_parse_seq(xs: Seq<Value>, r: Seq<u8>)
    requires
        items_wf(xs),
    ensures
        parse_items(encode_seq(xs) + r, xs.len()) == Ok::<(Seq<Value>, nat), RespError>((xs, encode_seq(xs).len())),
    decreases xs, 0nat,
{
    if xs.len() > 0 {
        lemma_items_wf_rest(xs);
        let rest = xs.drop_first();
        let s = encode_seq(xs) + r;
        let k = encode_value(xs[0]).len();
        assert(s =~= encode_value(xs[0]) + (encode_seq(rest) + r));
        lemma_parse_value(xs[0], encode_seq(rest) + r);
        assert(s.skip(k as int) =~= encode_seq(rest) + r);
        lemma_parse_seq(rest, r);
        assert(seq![xs[0]] + rest =~= xs);
    } else {
        assert(encode_seq(xs) =~= Seq::<u8>::empty());
        assert(xs =~= Seq::<Value>::empty());
    }
}

#[verifier::rlimit(100)]
pub proof fn lemma_parse_entries(es: Seq<(Seq<char>, Value)>, r: Seq<u8>)
    requires
        entries_wf(es),
    ensures
        parse_entries(encode_entries(es) + r, es.len()) == Ok::<(Seq<(Seq<char>, Value)>, nat), RespError>((es, encode_entries(es).len())),
    decreases es, 0nat,
{
    if es.len() > 0 {
        lemma_entries_wf_rest(es);
        let rest = es.drop_first();
        let s = encode_entries(es) + r;
        let key = encode_utf8(es[0].0);
        let tail = encode_value(es[0].1) + (encode_entries(rest) + r);
        assert(s =~= line(43u8, key) + tail);
        lemma_utf8_no_cr(es[0].0);
        lemma_line_end(43u8, key, tail);
        lemma_lossy_round_trip(es[0].0);
        lemma_parse_value(es[0].1, encode_entries(rest) + r);
        let e: int = key.len() + 1 as int;
        let k: int = encode_value(es[0].1).len() as int;
        assert(s.skip(e + 2 + k) =~= encode_entries(rest) + r);
        lemma_parse_entries(rest, r);
        assert(seq![(es[0].0, es[0].1)] + rest =~= es);
    } else {
        assert(encode_entries(es) =~= Seq::<u8>::empty());
        assert(es =~= Seq::<(Seq<char>, Value)>::empty());
    }
}

proof fn lemma_line_prefix(c: u8, text: Seq<u8>, k: int)
    requires
        c == 43u8 || c == 45u8 || c == 58u8 || c == 44u8,
        no_cr(text),
        0 <= k < line(c, text).len(),
    ensures
        measure(line(c, text).take(k)) == Err::<nat, RespError>(RespError::NotComplete),
        parse(line(c, text).take(k)) == Err::<(Value, nat), RespError>(RespError::NotComplete),
{
    if k > 0 {
        lemma_line_end_prefix(c, text, k);
        assert(line(c, text).take(k)[0] == c);
    }
}

/// A header line followed by a cut-short body.
#[verifier::rlimit(100)]
proof fn lemma_aggregate_prefix(c: u8, n: nat, body: Seq<u8>, k: int)
    requires
        crate::wire::is_aggregate_prefix(c),
        n <= usize::MAX,
        0 <= k < (line(c, nat_digits(n)) + body).len(),
        k >= line(c, nat_digits(n)).len() ==> measure_items(body.take(k - line(c, nat_digits(n)).len()), n, c == 37u8)
            == Err::<nat, RespError>(RespError::NotComplete),
    ensures
        measure((line(c, nat_digits(n)) + body).take(k)) == Err::<nat, RespError>(RespError::NotComplete),
        parse((line(c, nat_digits(n)) + body).take(k)) == Err::<(Value, nat), RespError>(RespError::NotComplete),
{
    let h = line(c, nat_digits(n));
    let t = (h + body).take(k);
    lemma_parse_unsigned_digits(n);
    if k == 0 {
    } else if k == 1 {
        assert(t =~= seq![c]);
        if c == 42u8 {
            assert(t =~= null_array_lit().take(1));
        }
    } else {
        assert(t[1] == nat_digits(n)[0]);
        lemma_not_lit(t, null_array_lit());
        assert(t[0] == c);
        if k < h.len() {
            assert(t =~= h.take(k));
            lemma_line_end_prefix(c, nat_digits(n), k);
        } else {
            let bp = body.take(k - h.len());
            assert(t =~= h + bp);
            lemma_header(c, n, bp);
        }
    }
}

#[verifier::rlimit(100)]
proof fn lemma_bulk_prefix(b: Seq<u8>, k: int)
    requires
        b.len() <= usize::MAX,
        0 <= k < encode_value(Value::BulkString(b)).len(),
    ensures
        measure(encode_value(Value::BulkString(b)).take(k)) == Err::<nat, RespError>(RespError::NotComplete),
        parse(encode_value(Value::BulkString(b)).take(k)) == Err::<(Value, nat), RespError>(RespError::NotComplete),
{
    let d = nat_digits(b.len());
    let h = line(36u8, d);
    let enc = encode_value(Value::BulkString(b));
    let t = enc.take(k);
    lemma_parse_unsigned_digits(b.len());
    if k == 0 {
    } else if k == 1 {
        assert(t =~= null_bulk_lit().take(1));
    } else {
        assert(t[1] == d[0]);
        lemma_not_lit(t, null_bulk_lit());
        assert(t[0] == 36u8);
        if k < h.len() {
            assert(t =~= h.take(k));
            lemma_line_end_prefix(36u8, d, k);
        } else {
            let rest = (b + crlf()).take(k - h.len());
            assert(t =~= h + rest);
            lemma_header(36u8, b.len(), rest);
        }
    }
}

proof fn lemma_lit_prefix(lit: Seq<u8>, k: int)
    requires
        lit.len() >= 3,
        0 <= k < lit.len(),
    ensures
        k > 0 ==> lit.take(k)[0] == lit[0],
        begins(lit.take(k), lit),
{
    assert(lit.take(k) =~= lit.take(lit.take(k).len() as int));
}

#[verifier::rlimit(100)]
pub proof fn lemma_measure_prefix(v: Value, k: int)
    requires
        v.wf(),
        0 <= k < encode_value(v).len(),
    ensures
        measure(encode_value(v).take(k)) == Err::<nat, RespError>(RespError::NotComplete),
        parse(encode_value(v).take(k)) == Err::<(Value, nat), RespError>(RespError::NotComplete),
    decreases v, 1nat,
{
    match v {
        Value::SimpleString(t) => {
            lemma_utf8_no_cr(t);
            lemma_line_prefix(43u8, encode_utf8(t), k);
        },
        Value::Error(t) => {
            lemma_utf8_no_cr(t);
            lemma_line_prefix(45u8, encode_utf8(t), k);
        },
        Value::Integer(i) => {
            lemma_parse_signed_text(i);
            lemma_line_prefix(58u8, int_text(i), k);
        },
        Value::Double(neg, m, e) => {
            crate::double::lemma_double_round_trip(neg, m, e);
            lemma_line_prefix(44u8, double_text(neg, m, e), k);
        },
        Value::BulkString(b) => {
            lemma_bulk_prefix(b, k);
        },
        Value::Array(xs) => {
            let h = line(42u8, nat_digits(xs.len()));
            if k >= h.len() {
                lemma_seq_prefix(xs, k - h.len());
            }
            lemma_aggregate_prefix(42u8, xs.len(), encode_seq(xs), k);
        },
        Value::RespSet(xs) => {
            let h = line(126u8, nat_digits(xs.len()));
            if k >= h.len() {
                lemma_seq_prefix(xs, k - h.len());
            }
            lemma_aggregate_prefix(126u8, xs.len(), encode_seq(xs), k);
        },
        Value::RespMap(es) => {
            let h = line(37u8, nat_digits(es.len()));
            if k >= h.len() {
                lemma_entries_prefix(es, k - h.len());
            }
            lemma_aggregate_prefix(37u8, es.len(), encode_entries(es), k);
        },
        Value::Null => {
            lemma_lit_prefix(null_lit(), k);
        },
        Value::NullArray => {
            lemma_lit_prefix(null_array_lit(), k);
        },
        Value::NullBulkString => {
            lemma_lit_prefix(null_bulk_lit(), k);
        },
        Value::Boolean(b) => {
            lemma_lit_prefix(true_lit(), k);
            lemma_lit_prefix(false_lit(), k);
        },
    }
}

#[verifier::rlimit(100)]
proof fn lemma_seq_prefix(xs: Seq<Value>, k: int)
    requires
        items_wf(xs),
        0 <= k < encode_seq(xs).len(),
    ensures
        measure_items(encode_seq(xs).take(k), xs.len(), false) == Err::<nat, RespError>(RespError::NotComplete),
    decreases xs, 0nat,
{
    if xs.len() == 0 {
        assert(encode_seq(xs) =~= Seq::<u8>::empty());
    } else {
        lemma_items_wf_rest(xs);
        let rest = xs.drop_first();
        let e0 = encode_value(xs[0]);
        let t = encode_seq(xs).take(k);
        assert(encode_seq(xs) == e0 + encode_seq(rest));
        if k < e0.len() {
            assert(t =~= e0.take(k));
            lemma_measure_prefix(xs[0], k);
            assert(measure_item(t, false) == Err::<nat, RespError>(RespError::NotComplete));
        } else {
            let rp = encode_seq(rest).take(k - e0.len());
            assert(t =~= e0 + rp);
            lemma_measure_value(xs[0], rp);
            assert(t.skip(e0.len() as int) =~= rp);
            lemma_seq_prefix(rest, k - e0.len());
            assert(measure_item(t, false) == Ok::<nat, RespError>(e0.len()));
            assert(measure_items(t.skip(e0.len() as int), (xs.len() - 1) as nat, false) == Err::<nat, RespError>(RespError::NotComplete));
        }
    }
}

#[verifier::rlimit(100)]
proof fn lemma_entries_prefix(es: Seq<(Seq<char>, Value)>, k: int)
    requires
        entries_wf(es),
        0 <= k < encode_entries(es).len(),
    ensures
        measure_items(encode_entries(es).take(k), es.len(), true) == Err::<nat, RespError>(RespError::NotComplete),
    decreases es, 0nat,
{
    if es.len() == 0 {
        assert(encode_entries(es) =~= Seq::<u8>::empty());
    } else {
        lemma_entries_wf_rest(es);
        let rest = es.drop_first();
        let key = encode_utf8(es[0].0);
        let h = line(43u8, key);
        let ev = encode_value(es[0].1);
        let t = encode_entries(es).take(k);
        assert(encode_entries(es) == h + ev + encode_entries(rest));
        lemma_utf8_no_cr(es[0].0);
        if k < h.len() {
            assert(t =~= h.take(k));
            lemma_line_end_prefix(43u8, key, k);
            assert(measure_item(t, true) == Err::<nat, RespError>(RespError::NotComplete));
        } else if k < h.len() + ev.len() {
            let vp = ev.take(k - h.len());
            assert(t =~= h + vp);
            lemma_line_end(43u8, key, vp);
            lemma_measure_prefix(es[0].1, k - h.len());
            assert(t.skip(key.len() + 3 as int) == vp);
            assert(measure_item(t, true) == Err::<nat, RespError>(RespError::NotComplete));
        } else {
            let rp = encode_entries(rest).take(k - h.len() - ev.len());
            assert(t =~= h + (ev + rp));
            lemma_line_end(43u8, key, ev + rp);
            lemma_measure_value(es[0].1, rp);
            assert(t.skip(h.len() + ev.len() as int) =~= rp);
            lemma_entries_prefix(rest, k - h.len() - ev.len());
            assert(t.skip(key.len() + 3 as int) == ev + rp);
            assert(measure_item(t, true) == Ok::<nat, RespError>((h.len() + ev.len()) as nat));
            assert(measure_items(t.skip(h.len() + ev.len() as int), (es.len() - 1) as nat, true) == Err::<nat, RespError>(RespError::NotComplete));
        }
    }
}

/// Round trip: decoding the encoding of a frame gives the frame back and
/// takes exactly its bytes, whatever follows them. Maps come back equal
/// because their entries are kept in key order.
pub proof fn law_round_trip(v: Value, rest: Seq<u8>)
    requires
        v.wf(),
    ensures
        parse(encode_value(v) + rest) == Ok::<(Value, nat), RespError>((v, encode_value(v).len())),
        parse(encode_value(v)) == Ok::<(Value, nat), RespError>((v, encode_value(v).len())),
{
    lemma_parse_value(v, rest);
    lemma_parse_value(v, Seq::empty());
    assert(encode_value(v) + Seq::<u8>::empty() =~= encode_value(v));
}

/// Partial buffers: every proper prefix of a frame's encoding decodes to
/// `NotComplete` (and the decoder then leaves the buffer as it was).
pub proof fn law_partial_frame(v: Value, k: int)
    requires
        v.wf(),
        0 <= k < encode_value(v).len(),
    ensures
        parse(encode_value(v).take(k)) == Err::<(Value, nat), RespError>(RespError::NotComplete),
{
    lemma_measure_prefix(v, k);
}

/// Pipelining: two encodings back to back decode to the two frames in
/// order, and nothing is left.
pub proof fn law_pipelining(a: Value, b: Value)
    requires
        a.wf(),
        b.wf(),
    ensures
        ({
            let buf = encode_value(a) + encode_value(b);
            let n = encode_value(a).len();
            &&& parse(buf) == Ok::<(Value, nat), RespError>((a, n))
            &&& parse(buf.skip(n as int)) == Ok::<(Value, nat), RespError>((b, encode_value(b).len()))
            &&& buf.skip(n as int).skip(encode_value(b).len() as int).len() == 0
        }),
{
    let buf = encode_value(a) + encode_value(b);
    lemma_parse_value(a, encode_value(b));
    law_round_trip(b, Seq::empty());
    assert(buf.skip(encode_value(a).len() as int) =~= encode_value(b));
}

/// Feeding a frame's encoding to `RespFrame::decode` a byte at a time: on
/// every proper prefix it answers `NotComplete` and leaves the buffer as it
/// was; on the whole encoding it returns the frame and empties the buffer.
pub proof fn law_incremental_decode(v: Value, k: int, after: Seq<u8>, rv: Result<Value, RespError>)
    requires
        v.wf(),
        0 <= k <= encode_value(v).len(),
        crate::decode::decode_outcome(encode_value(v).take(k), after, crate::decode::ANY_KIND, rv),
    ensures
        k < encode_value(v).len() ==> rv == Err::<Value, RespError>(RespError::NotComplete)
            && after == encode_value(v).take(k),
        k == encode_value(v).len() ==> rv == Ok::<Value, RespError>(v) && after.len() == 0,
{
    if k < encode_value(v).len() {
        law_partial_frame(v, k);
    } else {
        assert(encode_value(v).take(k) =~= encode_value(v));
        law_round_trip(v, Seq::empty());
    }
}

/// Whatever entries a map frame holds on the wire, and in whatever order,
/// the decoded map keeps its keys in ascending order, each key once.
pub proof fn law_decoded_map_sorted(list: Seq<(Seq<char>, Value)>)
    ensures
        keys_sorted(entries_map(list)),
    decreases list.len(),
{
    if list.len() > 0 {
        law_decoded_map_sorted(list.drop_last());
        crate::frame::lemma_insert_sorted(entries_map(list.drop_last()), list.last().0, list.last().1);
    }
}

} // verus!
