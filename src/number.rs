//! Decimal text of integers: how they are written and read on the wire.
use vstd::prelude::*;

verus! {

pub open spec fn is_digit(b: u8) -> bool {
    48 <= b <= 57
}

pub open spec fn all_digits(t: Seq<u8>) -> bool {
    forall|i: int| 0 <= i < t.len() ==> is_digit(#[trigger] t[i])
}

/// The number that a string of decimal digits stands for.
pub open spec fn digits_value(t: Seq<u8>) -> nat
    decreases t.len(),
{
    if t.len() == 0 {
        0
    } else {
        digits_value(t.drop_last()) * 10 + (t.last() - 48) as nat
    }
}

/// The shortest decimal text of `n`.
pub open spec fn nat_digits(n: nat) -> Seq<u8>
    decreases n,
{
    if n < 10 {
        seq![(48 + n) as u8]
    } else {
        nat_digits(n / 10) + seq![(48 + n % 10) as u8]
    }
}

/// An integer with an explicit sign: `+12`, `-7`, `+0`.
pub open spec fn int_text(i: int) -> Seq<u8> {
    if i < 0 {
        seq![45u8] + nat_digits((-i) as nat)
    } else {
        seq![43u8] + nat_digits(i as nat)
    }
}

/// What `usize::from_str` accepts: an optional `+`, then one or more digits,
/// with a value that fits.
pub open spec fn parse_unsigned(t: Seq<u8>) -> Option<nat> {
    let d = if t.len() > 0 && t[0] == 43u8 { t.drop_first() } else { t };
    if d.len() > 0 && all_digits(d) && digits_value(d) <= usize::MAX {
        Some(digits_value(d))
    } else {
        None
    }
}

/// What `i64::from_str` accepts: an optional `+` or `-`, then one or more
/// digits, with a value that fits.
pub open spec fn parse_signed(t: Seq<u8>) -> Option<int> {
    let neg = t.len() > 0 && t[0] == 45u8;
    let d = if t.len() > 0 && (t[0] == 43u8 || t[0] == 45u8) { t.drop_first() } else { t };
    let v: int = if neg { -digits_value(d) } else { digits_value(d) as int };
    if d.len() > 0 && all_digits(d) && i64::MIN <= v <= i64::MAX {
        Some(v)
    } else {
        None
    }
}

pub proof fn lemma_nat_digits(n: nat)
    ensures
        nat_digits(n).len() >= 1,
        all_digits(nat_digits(n)),
        digits_value(nat_digits(n)) == n,
    decreases n,
{
    if n >= 10 {
        lemma_nat_digits(n / 10);
        let s = nat_digits(n);
        assert(s.drop_last() =~= nat_digits(n / 10));
        assert(s.last() == (48 + n % 10) as u8);
        assert(n == (n / 10) * 10 + n % 10);
        assert((s.last() - 48) as nat == n % 10);
        assert(digits_value(s) == digits_value(s.drop_last()) * 10 + (s.last() - 48) as nat);
        assert(all_digits(s)) by {
            assert forall|i: int| 0 <= i < s.len() implies is_digit(#[trigger] s[i]) by {
                if i < s.len() - 1 {
                    assert(s[i] == nat_digits(n / 10)[i]);
                }
            }
        }
    } else {
        let s = nat_digits(n);
        assert(s.drop_last() =~= Seq::<u8>::empty());
        assert(digits_value(s) == digits_value(s.drop_last()) * 10 + (s.last() - 48) as nat);
    }
}

pub proof fn lemma_digits_value_prefix(t: Seq<u8>, i: int)
    requires
        all_digits(t),
        0 <= i <= t.len(),
    ensures
        digits_value(t.take(i)) <= digits_value(t),
    decreases t.len(),
{
    if i < t.len() {
        assert(t.drop_last().take(i) =~= t.take(i));
        lemma_digits_value_prefix(t.drop_last(), i);
    } else {
        assert(t.take(i) =~= t);
    }
}

pub proof fn lemma_digits_value_push(t: Seq<u8>, b: u8)
    ensures
        digits_value(t.push(b)) == digits_value(t) * 10 + (b - 48) as nat,
{
    assert(t.push(b).drop_last() =~= t);
}

/// Appends the decimal text of `n`.
pub fn write_nat(buf: &mut Vec<u8>, n: u64)
    ensures
        final(buf)@ == old(buf)@ + nat_digits(n as nat),
    decreases n,
{
    if n >= 10 {
        write_nat(buf, n / 10);
    }
    buf.push((48 + n % 10) as u8);
    proof {
        if n >= 10 {
            assert(final(buf)@ =~= old(buf)@ + nat_digits(n as nat));
        } else {
            assert(final(buf)@ =~= old(buf)@ + nat_digits(n as nat));
        }
    }
}

/// Appends `n` with an explicit sign.
pub fn write_int(buf: &mut Vec<u8>, n: i64)
    ensures
        final(buf)@ == old(buf)@ + int_text(n as int),
{
    if n < 0 {
        buf.push(45u8);
        let m: u64 = (0i128 - n as i128) as u64;
        write_nat(buf, m);
    } else {
        buf.push(43u8);
        write_nat(buf, n as u64);
    }
    assert(final(buf)@ =~= old(buf)@ + int_text(n as int));
}

/// Reads the digits of `buf[start..end]`, refusing a value above `limit`.
fn parse_digits(buf: &[u8], start: usize, end: usize, limit: u64) -> (r: Option<u64>)
    requires
        start <= end <= buf@.len(),
        limit >= 9,
    ensures
        ({
            let d = buf@.subrange(start as int, end as int);
            match r {
                Some(v) => d.len() > 0 && all_digits(d) && v == digits_value(d) && v <= limit,
                None => !(d.len() > 0 && all_digits(d) && digits_value(d) <= limit),
            }
        }),
{
    let ghost d = buf@.subrange(start as int, end as int);
    if start == end {
        return None;
    }
    let mut acc: u64 = 0;
    let mut i: usize = start;
    while i < end
        invariant
            start <= i <= end <= buf@.len(),
            d == buf@.subrange(start as int, end as int),
            all_digits(d.take(i - start)),
            acc == digits_value(d.take(i - start)),
            acc <= limit,
            limit >= 9,
        decreases end - i,
    {
        let b = buf[i];
        if b < 48 || b > 57 {
            assert(!is_digit(d[i - start]));
            return None;
        }
        let dg: u64 = (b - 48) as u64;
        proof {
            assert(d.take(i - start + 1) =~= d.take(i - start).push(b));
            lemma_digits_value_push(d.take(i - start), b);
        }
        if acc > (limit - dg) / 10 {
            proof {
                assert(acc * 10 + dg > limit) by (nonlinear_arith)
                    requires acc > (limit - dg) / 10, dg <= limit || dg > limit;
                if all_digits(d) {
                    lemma_digits_value_prefix(d, i - start + 1);
                }
            }
            return None;
        }
        proof {
            assert(acc * 10 + dg <= limit) by (nonlinear_arith)
                requires acc <= (limit - dg) / 10, dg <= limit;
        }
        acc = acc * 10 + dg;
        i += 1;
    }
    assert(d.take(i - start) =~= d);
    Some(acc)
}

/// Reads a length header the way `usize::from_str` does.
pub fn parse_unsigned_at(buf: &[u8], start: usize, end: usize) -> (r: Option<usize>)
    requires
        start <= end <= buf@.len(),
    ensures
        r matches Some(v) ==> parse_unsigned(buf@.subrange(start as int, end as int)) == Some(v as nat),
        r is None ==> parse_unsigned(buf@.subrange(start as int, end as int)) is None,
{
    let ghost t = buf@.subrange(start as int, end as int);
    let mut s = start;
    if s < end && buf[s] == 43u8 {
        s += 1;
        assert(t.drop_first() =~= buf@.subrange(s as int, end as int));
    } else {
        assert(t =~= buf@.subrange(s as int, end as int));
    }
    match parse_digits(buf, s, end, usize::MAX as u64) {
        Some(v) => Some(v as usize),
        None => None,
    }
}

/// Reads an integer the way `i64::from_str` does.
pub fn parse_signed_at(buf: &[u8], start: usize, end: usize) -> (r: Option<i64>)
    requires
        start <= end <= buf@.len(),
    ensures
        r matches Some(v) ==> parse_signed(buf@.subrange(start as int, end as int)) == Some(v as int),
        r is None ==> parse_signed(buf@.subrange(start as int, end as int)) is None,
{
    let ghost t = buf@.subrange(start as int, end as int);
    let mut s = start;
    let neg = s < end && buf[s] == 45u8;
    if s < end && (buf[s] == 43u8 || buf[s] == 45u8) {
        s += 1;
        assert(t.drop_first() =~= buf@.subrange(s as int, end as int));
    } else {
        assert(t =~= buf@.subrange(s as int, end as int));
    }
    let limit: u64 = if neg { 0x8000_0000_0000_0000u64 } else { 0x7fff_ffff_ffff_ffffu64 };
    match parse_digits(buf, s, end, limit) {
        Some(v) => {
            if neg {
                Some((0i128 - v as i128) as i64)
            } else {
                Some(v as i64)
            }
        },
        None => None,
    }
}

} // verus!

verus! {

pub open spec fn no_cr(b: Seq<u8>) -> bool {
    forall|i: int| 0 <= i < b.len() ==> b[i] != 13u8
}

pub proof fn lemma_digits_no_cr(t: Seq<u8>)
    requires
        all_digits(t),
    ensures
        no_cr(t),
{
    assert forall|i: int| 0 <= i < t.len() implies t[i] != 13u8 by {
        assert(is_digit(t[i]));
    }
}

pub proof fn lemma_parse_unsigned_digits(n: nat)
    requires
        n <= usize::MAX,
    ensures
        parse_unsigned(nat_digits(n)) == Some(n),
        no_cr(nat_digits(n)),
        nat_digits(n)[0] != 45u8,
{
    lemma_nat_digits(n);
    lemma_digits_no_cr(nat_digits(n));
    assert(is_digit(nat_digits(n)[0]));
}

pub proof fn lemma_parse_signed_text(i: int)
    requires
        i64::MIN <= i <= i64::MAX,
    ensures
        parse_signed(int_text(i)) == Some(i),
        no_cr(int_text(i)),
{
    let a: nat = if i < 0 { (-i) as nat } else { i as nat };
    lemma_nat_digits(a);
    lemma_digits_no_cr(nat_digits(a));
    let t = int_text(i);
    assert(t.drop_first() =~= nat_digits(a));
    assert forall|k: int| 0 <= k < t.len() implies t[k] != 13u8 by {
        if k > 0 {
            assert(t[k] == nat_digits(a)[k - 1]);
        }
    }
}

} // verus!
