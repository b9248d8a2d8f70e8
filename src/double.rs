use vstd::prelude::*;
use crate::number::{nat_digits, write_nat, lemma_nat_digits, is_digit, all_digits, digits_value};

verus! {

/// The largest significand: a finite `f64` needs at most 17 significant digits.
pub const MAX_SIGNIFICAND: u64 = 99_999_999_999_999_999;

/// A finite double in shortest decimal form: `±significand * 10^exponent`.
///
/// It holds what a finite `f64` prints as: at most 17 significant digits and
/// a decimal exponent within the range of `f64`. Texts with more digits, a
/// larger or smaller magnitude, `inf` or `NaN` do not read as a double
/// (`ParseDoubleError`); they are not rounded.
#[derive(Debug, Clone, Copy, PartialEq, Eq, Structural)]
pub struct RespDouble {
    pub(crate) negative: bool,
    pub(crate) significand: u64,
    pub(crate) exponent: i32,
}

pub open spec fn pow10(n: nat) -> nat
    decreases n,
{
    if n == 0 { 1 } else { 10 * pow10((n - 1) as nat) }
}

/// The decimal exponent of the leading digit: `d.ddd * 10^sci_exponent`.
pub open spec fn sci_exponent(m: nat, e: int) -> int {
    nat_digits(m).len() - 1 + e
}

/// Normal form: no trailing zero in the significand, zero written `0e0`,
/// at most 17 digits, and a magnitude in the range of `f64`.
pub open spec fn double_wf(neg: bool, m: nat, e: int) -> bool {
    &&& m <= MAX_SIGNIFICAND
    &&& (m == 0 ==> e == 0)
    &&& (m != 0 ==> m % 10 != 0 && -324 <= sci_exponent(m, e) <= 308)
}

} // verus!

verus! {

pub open spec fn zeros(k: nat) -> Seq<u8> {
    Seq::new(k, |_i: int| 48u8)
}

/// An exponent after `e`: a minus sign only where it is negative.
pub open spec fn exp_text(x: int) -> Seq<u8> {
    if x < 0 {
        seq![45u8] + nat_digits((-x) as nat)
    } else {
        nat_digits(x as nat)
    }
}

/// Magnitudes above `1e8` and nonzero magnitudes below `1e-8` are written in
/// scientific notation.
pub open spec fn use_scientific(m: nat, e: int) -> bool {
    let x = sci_exponent(m, e);
    m != 0 && (x > 8 || (x == 8 && m != 1) || x < -8)
}

/// `d.ddde<x>`: the digits `d` with a point after the first one (none when
/// there is only one), then the exponent.
pub open spec fn sci_text(d: Seq<u8>, x: int) -> Seq<u8> {
    d.take(1) + (if d.len() > 1 { seq![46u8] + d.skip(1) } else { Seq::empty() }) + seq![101u8]
        + exp_text(x)
}

/// The digits `d` times `10^e` written out in full, without an exponent.
pub open spec fn fixed_text(d: Seq<u8>, e: int) -> Seq<u8> {
    let n = d.len() as int;
    if e >= 0 {
        d + zeros(e as nat)
    } else if n + e > 0 {
        d.take(n + e) + seq![46u8] + d.skip(n + e)
    } else {
        seq![48u8, 46u8] + zeros((-(n + e)) as nat) + d
    }
}

/// The text of a double, sign always written: `+123.456`, `+1.5e8`,
/// `-1.234e-9`, `+0`.
pub open spec fn double_text(neg: bool, m: nat, e: int) -> Seq<u8> {
    let sign = if neg { seq![45u8] } else { seq![43u8] };
    if use_scientific(m, e) {
        sign + sci_text(nat_digits(m), sci_exponent(m, e))
    } else {
        sign + fixed_text(nat_digits(m), e)
    }
}

pub proof fn lemma_digits_len_bound(m: nat, k: nat)
    requires
        m < crate::double::pow10(k),
        k >= 1,
    ensures
        nat_digits(m).len() <= k,
    decreases k,
{
    if m >= 10 {
        assert(m / 10 < pow10((k - 1) as nat)) by (nonlinear_arith)
            requires m < pow10(k), pow10(k) == 10 * pow10((k - 1) as nat), m >= 10;
        if k == 1 {
            assert(pow10(0) == 1);
        } else {
            lemma_digits_len_bound(m / 10, (k - 1) as nat);
        }
    }
}

pub proof fn lemma_significand_digits(m: nat)
    requires
        m <= MAX_SIGNIFICAND,
    ensures
        1 <= nat_digits(m).len() <= 17,
{
    reveal_with_fuel(pow10, 18);
    assert(pow10(17) == 100_000_000_000_000_000);
    lemma_digits_len_bound(m, 17);
    lemma_nat_digits(m);
}

pub proof fn lemma_u64_digits(m: nat)
    requires
        m <= u64::MAX,
    ensures
        1 <= nat_digits(m).len() <= 20,
{
    reveal_with_fuel(pow10, 21);
    assert(pow10(20) == 100_000_000_000_000_000_000);
    lemma_digits_len_bound(m, 20);
    lemma_nat_digits(m);
}

impl RespDouble {
    /// `(negative, significand, exponent)`.
    pub open(crate) spec fn view(&self) -> (bool, nat, int) {
        (self.negative, self.significand as nat, self.exponent as int)
    }

    pub open(crate) spec fn wf(&self) -> bool {
        double_wf(self.negative, self.significand as nat, self.exponent as int)
    }

    /// The double `±significand * 10^exponent`, where it is in normal form:
    /// no trailing zero in the significand (zero written with exponent 0), at
    /// most 17 digits, and a magnitude in the range of `f64`.
    pub fn new(negative: bool, significand: u64, exponent: i32) -> (r: Option<RespDouble>)
        ensures
            r is Some <==> double_wf(negative, significand as nat, exponent as int),
            r matches Some(d) ==> d.view() == (negative, significand as nat, exponent as int),
    {
        if significand > MAX_SIGNIFICAND {
            return None;
        }
        if significand == 0 {
            if exponent != 0 {
                return None;
            }
        } else {
            if significand % 10 == 0 {
                return None;
            }
            proof {
                lemma_significand_digits(significand as nat);
            }
            let x: i64 = digit_count(significand) as i64 - 1 + exponent as i64;
            if x < -324 || x > 308 {
                return None;
            }
        }
        Some(RespDouble { negative, significand, exponent })
    }

    pub fn negative(&self) -> (r: bool)
        ensures
            r == self.view().0,
    {
        self.negative
    }

    pub fn significand(&self) -> (r: u64)
        ensures
            r == self.view().1,
    {
        self.significand
    }

    pub fn exponent(&self) -> (r: i32)
        ensures
            r == self.view().2,
    {
        self.exponent
    }
}

/// Appends `src[from..to]`.
pub fn push_range(buf: &mut Vec<u8>, src: &Vec<u8>, from: usize, to: usize)
    requires
        from <= to <= src@.len(),
    ensures
        final(buf)@ == old(buf)@ + src@.subrange(from as int, to as int),
{
    let mut i = from;
    while i < to
        invariant
            from <= i <= to <= src@.len(),
            buf@ == old(buf)@ + src@.subrange(from as int, i as int),
        decreases to - i,
    {
        buf.push(src[i]);
        i += 1;
        assert(buf@ =~= old(buf)@ + src@.subrange(from as int, i as int));
    }
}

fn push_zeros(buf: &mut Vec<u8>, k: u64)
    ensures
        final(buf)@ == old(buf)@ + zeros(k as nat),
{
    let mut i: u64 = 0;
    while i < k
        invariant
            i <= k,
            buf@ == old(buf)@ + zeros(i as nat),
        decreases k - i,
    {
        buf.push(48u8);
        i += 1;
        assert(buf@ =~= old(buf)@ + zeros(i as nat));
    }
}

fn write_sci(buf: &mut Vec<u8>, ds: &Vec<u8>, x: i64)
    requires
        ds@.len() >= 1,
        x > i64::MIN,
    ensures
        final(buf)@ == old(buf)@ + sci_text(ds@, x as int),
{
    let n = ds.len();
    push_range(buf, ds, 0, 1);
    if n > 1 {
        buf.push(46u8);
        push_range(buf, ds, 1, n);
    }
    buf.push(101u8);
    let ghost before = buf@;
    if x < 0 {
        buf.push(45u8);
        write_nat(buf, (0 - x) as u64);
    } else {
        write_nat(buf, x as u64);
    }
    assert(buf@ =~= before + exp_text(x as int));
    assert(buf@ =~= old(buf)@ + sci_text(ds@, x as int));
}

fn write_fixed(buf: &mut Vec<u8>, ds: &Vec<u8>, e: i64)
    requires
        1 <= ds@.len() <= 20,
        i32::MIN <= e <= i32::MAX,
    ensures
        final(buf)@ == old(buf)@ + fixed_text(ds@, e as int),
{
    let n = ds.len();
    if e >= 0 {
        push_range(buf, ds, 0, n);
        push_zeros(buf, e as u64);
        assert(buf@ =~= old(buf)@ + fixed_text(ds@, e as int));
    } else if n as i64 + e > 0 {
        let p: usize = (n as i64 + e) as usize;
        push_range(buf, ds, 0, p);
        buf.push(46u8);
        push_range(buf, ds, p, n);
        assert(buf@ =~= old(buf)@ + fixed_text(ds@, e as int));
    } else {
        buf.push(48u8);
        buf.push(46u8);
        push_zeros(buf, (0 - (n as i64 + e)) as u64);
        push_range(buf, ds, 0, n);
        assert(buf@ =~= old(buf)@ + fixed_text(ds@, e as int));
    }
}

/// Appends the text of `d` (no prefix, no line end).
pub(crate) fn write_double(buf: &mut Vec<u8>, d: &RespDouble)
    ensures
        final(buf)@ == old(buf)@ + double_text(d.negative, d.significand as nat, d.exponent as int),
{
    let ghost m = d.significand as nat;
    let ghost e = d.exponent as int;
    let mut ds: Vec<u8> = Vec::new();
    write_nat(&mut ds, d.significand);
    proof {
        assert(ds@ =~= nat_digits(m));
        lemma_u64_digits(m);
    }
    let n = ds.len();
    let x: i64 = n as i64 - 1 + d.exponent as i64;
    let sci = d.significand != 0 && (x > 8 || (x == 8 && d.significand != 1) || x < -8);
    assert(sci == use_scientific(m, e));
    if d.negative {
        buf.push(45u8);
    } else {
        buf.push(43u8);
    }
    let ghost mid = buf@;
    if sci {
        write_sci(buf, &ds, x);
    } else {
        write_fixed(buf, &ds, d.exponent as i64);
    }
    assert(buf@ =~= old(buf)@ + double_text(d.negative, m, e));
}

} // verus!

verus! {

/// Exponents are read up to this magnitude; any larger one stands for it.
pub const EXP_CAP: u64 = 100_000;

/// Number of consecutive digits at `t[i..]`.
pub open spec fn digit_run(t: Seq<u8>, i: int) -> nat
    decreases t.len() - i,
{
    if 0 <= i < t.len() && is_digit(t[i]) {
        1 + digit_run(t, i + 1)
    } else {
        0
    }
}

/// Reading one more digit into `(significant, zeros)`: the digits read so far
/// stand for `significant * 10^zeros`, with no trailing zero in `significant`.
pub open spec fn mant_step(st: (nat, nat), dg: nat) -> (nat, nat) {
    if dg == 0 {
        if st.0 == 0 { st } else { (st.0, st.1 + 1) }
    } else {
        (st.0 * pow10(st.1 + 1) + dg, 0)
    }
}

pub open spec fn mant_fold(ds: Seq<u8>) -> (nat, nat)
    decreases ds.len(),
{
    if ds.len() == 0 {
        (0, 0)
    } else {
        mant_step(mant_fold(ds.drop_last()), (ds.last() - 48) as nat)
    }
}

pub open spec fn capped(ds: Seq<u8>) -> nat {
    if digits_value(ds) > EXP_CAP { EXP_CAP as nat } else { digits_value(ds) }
}

pub open spec fn sign_len(t: Seq<u8>) -> int {
    if t.len() > 0 && (t[0] == 43u8 || t[0] == 45u8) { 1 } else { 0 }
}

/// End of the integer digits.
pub open spec fn int_end(t: Seq<u8>) -> int {
    sign_len(t) + digit_run(t, sign_len(t))
}

pub open spec fn has_point(t: Seq<u8>) -> bool {
    int_end(t) < t.len() && t[int_end(t)] == 46u8
}

/// End of the fraction digits (of the integer digits where there is no point).
pub open spec fn frac_end(t: Seq<u8>) -> int {
    if has_point(t) { int_end(t) + 1 + digit_run(t, int_end(t) + 1) } else { int_end(t) }
}

pub open spec fn frac_len(t: Seq<u8>) -> int {
    if has_point(t) { frac_end(t) - int_end(t) - 1 } else { 0 }
}

/// All digits of the significand, integer part and fraction together.
pub open spec fn mant_digits(t: Seq<u8>) -> Seq<u8> {
    if has_point(t) {
        t.subrange(sign_len(t), int_end(t)) + t.subrange(int_end(t) + 1, frac_end(t))
    } else {
        t.subrange(sign_len(t), int_end(t))
    }
}

pub open spec fn has_exp(t: Seq<u8>) -> bool {
    frac_end(t) < t.len() && (t[frac_end(t)] == 101u8 || t[frac_end(t)] == 69u8)
}

pub open spec fn exp_start(t: Seq<u8>) -> int {
    let q0 = frac_end(t) + 1;
    if q0 < t.len() && (t[q0] == 43u8 || t[q0] == 45u8) { q0 + 1 } else { q0 }
}

pub open spec fn exp_end(t: Seq<u8>) -> int {
    exp_start(t) + digit_run(t, exp_start(t))
}

pub open spec fn exp_value(t: Seq<u8>) -> int {
    let q0 = frac_end(t) + 1;
    let v = capped(t.subrange(exp_start(t), exp_end(t)));
    if !has_exp(t) { 0 } else if q0 < t.len() && t[q0] == 45u8 { -v } else { v as int }
}

/// At least one significand digit, and nothing after the number.
pub open spec fn double_shape(t: Seq<u8>) -> bool {
    &&& int_end(t) - sign_len(t) + frac_len(t) > 0
    &&& if has_exp(t) { exp_end(t) > exp_start(t) && exp_end(t) == t.len() } else { frac_end(t) == t.len() }
}

/// What a double's text reads as: an optional sign, digits with an optional
/// point (at least one digit), an optional exponent `e`/`E` with an optional
/// sign and at least one digit. The result is in normal form, or `None`.
pub open spec fn parse_double(t: Seq<u8>) -> Option<(bool, nat, int)> {
    let neg = t.len() > 0 && t[0] == 45u8;
    let m = mant_fold(mant_digits(t)).0;
    let e: int = if m == 0 { 0 } else { mant_fold(mant_digits(t)).1 + exp_value(t) - frac_len(t) };
    if double_shape(t) && double_wf(neg, m, e) {
        Some((neg, m, e))
    } else {
        None
    }
}

pub proof fn lemma_pow10_pos(n: nat)
    ensures
        pow10(n) >= 1,
    decreases n,
{
    if n > 0 {
        lemma_pow10_pos((n - 1) as nat);
    }
}

pub proof fn lemma_mant_fold_grows(ds: Seq<u8>, i: int)
    requires
        0 <= i <= ds.len(),
    ensures
        mant_fold(ds.take(i)).0 <= mant_fold(ds).0,
    decreases ds.len(),
{
    if i < ds.len() {
        assert(ds.drop_last().take(i) =~= ds.take(i));
        lemma_mant_fold_grows(ds.drop_last(), i);
        let st = mant_fold(ds.drop_last());
        lemma_pow10_pos(st.1 + 1);
        assert(st.0 * pow10(st.1 + 1) >= st.0) by (nonlinear_arith)
            requires pow10(st.1 + 1) >= 1;
    } else {
        assert(ds.take(i) =~= ds);
    }
}

pub proof fn lemma_mant_fold_shape(ds: Seq<u8>)
    requires
        all_digits(ds),
    ensures
        mant_fold(ds).0 == 0 ==> mant_fold(ds).1 == 0,
        mant_fold(ds).0 != 0 ==> mant_fold(ds).0 % 10 != 0,
    decreases ds.len(),
{
    if ds.len() > 0 {
        lemma_mant_fold_shape(ds.drop_last());
        let st = mant_fold(ds.drop_last());
        let dg = (ds.last() - 48) as nat;
        assert(is_digit(ds[ds.len() - 1]));
        if dg != 0 {
            let p = pow10(st.1 + 1);
            let y = st.0 * pow10(st.1);
            assert(st.0 * p == 10 * y) by (nonlinear_arith)
                requires p == 10 * pow10(st.1), y == st.0 * pow10(st.1);
            assert((10 * y + dg) % 10 == dg);
        }
    }
}

/// Reads the digit run at `buf[i..end]`, folding it into `(acc, zeros)`.
/// `None` where the significant digits pass the largest significand.
fn read_digits(buf: &[u8], i: usize, end: usize, acc0: u64, zeros0: usize, Ghost(pre): Ghost<Seq<u8>>)
    -> (r: Option<(usize, u64, usize)>)
    requires
        i <= end <= buf@.len(),
        all_digits(pre),
        mant_fold(pre) == (acc0 as nat, zeros0 as nat),
        acc0 <= MAX_SIGNIFICAND,
        zeros0 <= i,
        pre.len() <= i,
    ensures
        ({
            let run = digit_run(buf@.subrange(0, end as int), i as int);
            let ds = pre + buf@.subrange(i as int, i + run);
            match r {
                Some((j, acc, zeros)) => j == i + run && all_digits(ds)
                    && mant_fold(ds) == (acc as nat, zeros as nat) && acc <= MAX_SIGNIFICAND
                    && zeros <= j,
                None => mant_fold(ds).0 > MAX_SIGNIFICAND,
            }
        }),
{
    let ghost t = buf@.subrange(0, end as int);
    let mut j = i;
    let mut acc = acc0;
    let mut zeros = zeros0;
    while j < end && buf[j] >= 48 && buf[j] <= 57
        invariant
            i <= j <= end <= buf@.len(),
            t == buf@.subrange(0, end as int),
            digit_run(t, i as int) == (j - i) + digit_run(t, j as int),
            all_digits(pre + buf@.subrange(i as int, j as int)),
            mant_fold(pre + buf@.subrange(i as int, j as int)) == (acc as nat, zeros as nat),
            acc <= MAX_SIGNIFICAND,
            zeros <= j,
            pre.len() <= i,
        decreases end - j,
    {
        let ghost ds = pre + buf@.subrange(i as int, j as int);
        let ghost ds2 = pre + buf@.subrange(i as int, j + 1);
        proof { lemma_digit_run_bound(t, i as int); }
        let ghost full = pre + buf@.subrange(i as int, i + digit_run(t, i as int));
        assert(t[j as int] == buf@[j as int]);
        assert(digit_run(t, j as int) == 1 + digit_run(t, j + 1));
        proof { lemma_digit_run_bound(t, j + 1); }
        assert(ds2.drop_last() =~= ds);
        assert(ds2 =~= ds.push(buf@[j as int]));
        assert(ds2 =~= full.take(ds2.len() as int));
        assert(mant_fold(ds2) == mant_step((acc as nat, zeros as nat), (buf@[j as int] - 48) as nat));
        assert(all_digits(ds2)) by {
            assert forall|k: int| 0 <= k < ds2.len() implies is_digit(#[trigger] ds2[k]) by {
                if k < ds.len() {
                    assert(ds2[k] == ds[k]);
                }
            }
        }
        let dg = (buf[j] - 48) as u64;
        assert(dg as nat == (buf@[j as int] - 48) as nat);
        if dg == 0 {
            if acc != 0 {
                zeros += 1;
            }
            assert(mant_fold(ds2) == (acc as nat, zeros as nat));
        } else if acc == 0 {
            proof {
                lemma_mant_fold_shape(ds);
                lemma_pow10_pos(zeros as nat + 1);
            }
            assert(zeros == 0);
            assert(0 * pow10(zeros as nat + 1) == 0);
            assert(mant_step((0nat, zeros as nat), dg as nat) == (dg as nat, 0nat));
            acc = dg;
            assert(mant_fold(ds2) == (acc as nat, zeros as nat));
        } else {
            // acc * 10^(zeros + 1) + dg, refused once it passes the bound
            assert(mant_fold(ds2).0 == acc * pow10(zeros as nat + 1) + dg);
            let mut v = acc;
            let mut k: usize = 0;
            while k <= zeros
                invariant
                    k <= zeros + 1,
                    v == acc * pow10(k as nat),
                    v <= MAX_SIGNIFICAND,
                    acc <= MAX_SIGNIFICAND,
                    1 <= dg <= 9,
                    zeros <= j < end,
                    mant_fold(ds2).0 == acc * pow10(zeros as nat + 1) + dg,
                    ds2.len() <= full.len(),
                    ds2 == full.take(ds2.len() as int),
                    t == buf@.subrange(0, end as int),
                    full == pre + buf@.subrange(i as int, i + digit_run(t, i as int)),
                decreases zeros + 1 - k,
            {
                if v > MAX_SIGNIFICAND / 10 {
                    proof {
                        assert(v * 10 > MAX_SIGNIFICAND) by (nonlinear_arith)
                            requires v > MAX_SIGNIFICAND / 10;
                        assert(pow10(k as nat + 1) == 10 * pow10(k as nat));
                        assert(acc * pow10(k as nat + 1) == v * 10) by (nonlinear_arith)
                            requires v == acc * pow10(k as nat), pow10(k as nat + 1) == 10 * pow10(k as nat);
                        lemma_pow10_split(acc as nat, k as nat + 1, zeros as nat + 1);
                        assert(mant_fold(ds2).0 > MAX_SIGNIFICAND);
                        lemma_mant_fold_grows(full, ds2.len() as int);
                    }
                    return None;
                }
                v = v * 10;
                k += 1;
                assert(pow10(k as nat) == 10 * pow10((k - 1) as nat));
                assert(v == acc * pow10(k as nat)) by (nonlinear_arith)
                    requires v == (acc * pow10((k - 1) as nat)) * 10, pow10(k as nat) == 10 * pow10((k - 1) as nat);
            }
            if v > MAX_SIGNIFICAND - dg {
                proof {
                    lemma_mant_fold_grows(full, ds2.len() as int);
                }
                return None;
            }
            assert(mant_fold(ds2).0 == acc * pow10(zeros as nat + 1) + dg);
            acc = v + dg;
            zeros = 0;
            assert(mant_fold(ds2) == (acc as nat, zeros as nat));
        }
        j += 1;
    }
    proof {
        if j < end {
            assert(!is_digit(t[j as int]));
        }
        assert(digit_run(t, j as int) == 0);
    }
    Some((j, acc, zeros))
}

pub proof fn lemma_digit_run_bound(t: Seq<u8>, i: int)
    requires
        0 <= i <= t.len(),
    ensures
        i + digit_run(t, i) <= t.len(),
    decreases t.len() - i,
{
    if i < t.len() {
        lemma_digit_run_bound(t, i + 1);
    }
}

pub proof fn lemma_pow10_split(a: nat, k: nat, n: nat)
    requires
        k <= n,
    ensures
        a * pow10(k) <= a * pow10(n),
    decreases n - k,
{
    if k < n {
        lemma_pow10_split(a, k + 1, n);
        lemma_pow10_pos(k);
        assert(pow10(k + 1) == 10 * pow10(k));
        assert(a * pow10(k) <= a * pow10(k + 1)) by (nonlinear_arith)
            requires pow10(k + 1) == 10 * pow10(k);
    }
}

} // verus!

verus! {

pub fn digit_count(m: u64) -> (r: usize)
    requires
        m <= MAX_SIGNIFICAND,
    ensures
        r == nat_digits(m as nat).len(),
    decreases m,
{
    proof {
        lemma_significand_digits(m as nat);
    }
    if m < 10 {
        1
    } else {
        1 + digit_count(m / 10)
    }
}

/// Reads an exponent's digit run at `t[q..]`, capped at `EXP_CAP`.
fn read_exponent(t: &[u8], q: usize) -> (r: (usize, u64))
    requires
        q <= t@.len(),
    ensures
        r.0 == q + digit_run(t@, q as int),
        r.1 == capped(t@.subrange(q as int, r.0 as int)),
        all_digits(t@.subrange(q as int, r.0 as int)),
{
    let mut j = q;
    let mut acc: u64 = 0;
    proof {
        lemma_digit_run_bound(t@, q as int);
    }
    while j < t.len() && t[j] >= 48 && t[j] <= 57
        invariant
            q <= j <= t@.len(),
            digit_run(t@, q as int) == (j - q) + digit_run(t@, j as int),
            all_digits(t@.subrange(q as int, j as int)),
            acc == capped(t@.subrange(q as int, j as int)),
        decreases t@.len() - j,
    {
        let ghost s = t@.subrange(q as int, j as int);
        let dg = (t[j] - 48) as u64;
        assert(t@.subrange(q as int, j + 1) =~= s.push(t@[j as int]));
        proof {
            crate::number::lemma_digits_value_push(s, t@[j as int]);
        }
        assert(all_digits(t@.subrange(q as int, j + 1))) by {
            let s2 = t@.subrange(q as int, j + 1);
            assert forall|k: int| 0 <= k < s2.len() implies is_digit(#[trigger] s2[k]) by {
                if k < s.len() {
                    assert(s2[k] == s[k]);
                }
            }
        }
        if acc >= EXP_CAP {
            acc = EXP_CAP;
        } else {
            acc = acc * 10 + dg;
            if acc > EXP_CAP {
                acc = EXP_CAP;
            }
        }
        j += 1;
    }
    proof {
        if j < t@.len() {
            assert(!is_digit(t@[j as int]));
        }
    }
    (j, acc)
}

/// Reads the significand digits of `t`.
fn scan_mantissa(t: &[u8]) -> (r: Option<(usize, u64, usize)>)
    ensures
        match r {
            Some((p2, m, zeros)) => p2 == frac_end(t@) && p2 <= t@.len() && mant_fold(mant_digits(t@)) == (m as nat, zeros as nat)
                && m <= MAX_SIGNIFICAND && all_digits(mant_digits(t@)),
            None => mant_fold(mant_digits(t@)).0 > MAX_SIGNIFICAND,
        },
{
    assert(t@.subrange(0, t@.len() as int) =~= t@);
    let n = t.len();
    let p0: usize = if n > 0 && (t[0] == 43u8 || t[0] == 45u8) { 1 } else { 0 };
    let ghost empty = Seq::<u8>::empty();
    proof {
        lemma_digit_run_bound(t@, p0 as int);
    }
    let ghost ip = t@.subrange(p0 as int, int_end(t@));
    assert(empty + ip =~= ip);
    let (p1, acc1, zeros1) = match read_digits(t, p0, n, 0, 0, Ghost(empty)) {
        Some(x) => x,
        None => {
            proof {
                if has_point(t@) {
                    lemma_digit_run_bound(t@, int_end(t@) + 1);
                    assert(mant_digits(t@).take(ip.len() as int) =~= ip);
                    lemma_mant_fold_grows(mant_digits(t@), ip.len() as int);
                }
            }
            return None;
        },
    };
    if p1 < n && t[p1] == 46u8 {
        proof {
            lemma_digit_run_bound(t@, p1 + 1);
        }
        match read_digits(t, p1 + 1, n, acc1, zeros1, Ghost(ip)) {
            Some(x) => Some(x),
            None => None,
        }
    } else {
        Some((p1, acc1, zeros1))
    }
}

/// Reads the exponent of `t`, which starts at `p2`: whether the text ends
/// properly there, and the exponent's value.
fn scan_exponent(t: &[u8], p2: usize) -> (r: (bool, i128))
    requires
        p2 == frac_end(t@),
        p2 <= t@.len(),
    ensures
        r.0 == (if has_exp(t@) { exp_end(t@) > exp_start(t@) && exp_end(t@) == t@.len() } else { frac_end(t@) == t@.len() }),
        r.1 == exp_value(t@),
{
    let n = t.len();
    if p2 < n && (t[p2] == 101u8 || t[p2] == 69u8) {
        let q0 = p2 + 1;
        let eneg = q0 < n && t[q0] == 45u8;
        let q1 = if q0 < n && (t[q0] == 43u8 || t[q0] == 45u8) { q0 + 1 } else { q0 };
        let (q2, v) = read_exponent(t, q1);
        let ev: i128 = if eneg { 0 - v as i128 } else { v as i128 };
        (q2 > q1 && q2 == n, ev)
    } else {
        (p2 == n, 0)
    }
}

/// Reads the text `buf[start..end]` of a double.
pub(crate) fn parse_double_at(buf: &[u8], start: usize, end: usize) -> (r: Option<RespDouble>)
    requires
        start <= end <= buf@.len(),
    ensures
        r matches Some(d) ==> d.wf() && parse_double(buf@.subrange(start as int, end as int))
            == Some((d.negative, d.significand as nat, d.exponent as int)),
        r is None ==> parse_double(buf@.subrange(start as int, end as int)) is None,
{
    let t = vstd::slice::slice_subrange(buf, start, end);
    let ghost ts = t@;
    let n = t.len();
    let neg = n > 0 && t[0] == 45u8;
    let (p2, m, zeros) = match scan_mantissa(t) {
        Some(x) => x,
        None => return None,
    };
    proof {
        lemma_mant_fold_shape(mant_digits(ts));
    }
    let p0: usize = if n > 0 && (t[0] == 43u8 || t[0] == 45u8) { 1 } else { 0 };
    let p1: usize = (p0 + digit_run_len(t, p0)) as usize;
    let b: usize = if p1 < n && t[p1] == 46u8 { p2 - p1 - 1 } else { 0 };
    let (tail_ok, ev) = scan_exponent(t, p2);
    if !(p1 - p0 + b > 0 && tail_ok) {
        return None;
    }
    let e: i128 = if m == 0 { 0 } else { zeros as i128 + ev - b as i128 };
    let nd = digit_count(m);
    let sx: i128 = nd as i128 - 1 + e;
    if m != 0 && (sx < -324 || sx > 308) {
        return None;
    }
    proof {
        lemma_significand_digits(m as nat);
        assert(p1 == int_end(ts));
        assert(b == frac_len(ts));
        assert(e == (if m == 0 { 0 } else { mant_fold(mant_digits(ts)).1 + exp_value(ts) - frac_len(ts) }));
        assert(double_shape(ts));
        assert(double_wf(neg, m as nat, e as int));
    }
    Some(RespDouble { negative: neg, significand: m, exponent: e as i32 })
}

fn digit_run_len(t: &[u8], i: usize) -> (r: usize)
    requires
        i <= t@.len(),
    ensures
        r == digit_run(t@, i as int),
{
    let (j, _v) = read_exponent(t, i);
    j - i
}

pub open spec fn mant_fold_from(st: (nat, nat), ds: Seq<u8>) -> (nat, nat)
    decreases ds.len(),
{
    if ds.len() == 0 {
        st
    } else {
        mant_step(mant_fold_from(st, ds.drop_last()), (ds.last() - 48) as nat)
    }
}

proof fn lemma_fold_from_start(ds: Seq<u8>)
    ensures
        mant_fold_from((0, 0), ds) == mant_fold(ds),
    decreases ds.len(),
{
    if ds.len() > 0 {
        lemma_fold_from_start(ds.drop_last());
    }
}

proof fn lemma_fold_concat(p: Seq<u8>, ds: Seq<u8>)
    ensures
        mant_fold(p + ds) == mant_fold_from(mant_fold(p), ds),
    decreases ds.len(),
{
    if ds.len() == 0 {
        assert(p + ds =~= p);
    } else {
        assert((p + ds).drop_last() =~= p + ds.drop_last());
        lemma_fold_concat(p, ds.drop_last());
    }
}

proof fn lemma_fold_zeros(k: nat)
    ensures
        mant_fold(zeros(k)) == (0nat, 0nat),
    decreases k,
{
    if k > 0 {
        assert(zeros(k).drop_last() =~= zeros((k - 1) as nat));
        lemma_fold_zeros((k - 1) as nat);
    }
}

proof fn lemma_fold_trailing_zeros(ds: Seq<u8>, k: nat)
    requires
        mant_fold(ds).0 != 0,
    ensures
        mant_fold(ds + zeros(k)) == (mant_fold(ds).0, mant_fold(ds).1 + k),
    decreases k,
{
    if k > 0 {
        assert((ds + zeros(k)).drop_last() =~= ds + zeros((k - 1) as nat));
        lemma_fold_trailing_zeros(ds, (k - 1) as nat);
    } else {
        assert(ds + zeros(k) =~= ds);
    }
}

proof fn lemma_fold_value(ds: Seq<u8>)
    requires
        all_digits(ds),
    ensures
        digits_value(ds) == mant_fold(ds).0 * pow10(mant_fold(ds).1),
    decreases ds.len(),
{
    if ds.len() > 0 {
        let init = ds.drop_last();
        assert(all_digits(init)) by {
            assert forall|i: int| 0 <= i < init.len() implies is_digit(#[trigger] init[i]) by {
                assert(init[i] == ds[i]);
            }
        }
        lemma_fold_value(init);
        lemma_mant_fold_shape(init);
        let (a, z) = mant_fold(init);
        assert(is_digit(ds[ds.len() - 1]));
        let d = (ds.last() - 48) as nat;
        assert(digits_value(ds) == digits_value(init) * 10 + d);
        assert(mant_fold(ds) == mant_step((a, z), d));
        assert(digits_value(init) == a * pow10(z));
        assert(pow10(z + 1) == 10 * pow10(z));
        assert(pow10(0) == 1);
        assert(a * pow10(z) * 10 == a * pow10(z + 1)) by (nonlinear_arith)
            requires pow10(z + 1) == 10 * pow10(z);
        if d == 0 {
            if a == 0 {
                assert(z == 0);
                assert(mant_fold(ds) == (0nat, 0nat));
                assert(0 * pow10(0) == 0);
            } else {
                assert(mant_fold(ds) == (a, z + 1));
            }
        } else {
            let v = a * pow10(z + 1) + d;
            assert(mant_fold(ds) == (v, 0nat));
            assert(v * pow10(0) == v) by (nonlinear_arith)
                requires pow10(0) == 1;
        }
    } else {
        assert(pow10(0) == 1);
    }
}

proof fn lemma_fold_digits(m: nat)
    requires
        m == 0 || m % 10 != 0,
    ensures
        mant_fold(nat_digits(m)) == (m, 0nat),
{
    let ds = nat_digits(m);
    lemma_nat_digits(m);
    lemma_fold_value(ds);
    lemma_mant_fold_shape(ds);
    let (a, z) = mant_fold(ds);
    lemma_pow10_pos(z);
    if z > 0 {
        assert(a != 0);
        let q = pow10((z - 1) as nat);
        assert(pow10(z) == 10 * q);
        let y = a * q;
        assert(m == 10 * y) by (nonlinear_arith)
            requires m == a * pow10(z), pow10(z) == 10 * q, y == a * q;
        assert(m % 10 == 0);
        assert(a * pow10(z) >= 1) by (nonlinear_arith)
            requires a != 0, pow10(z) >= 1;
        assert(false);
    } else {
        assert(pow10(0) == 1);
        assert(a * pow10(0) == a) by (nonlinear_arith)
            requires pow10(0) == 1;
    }
}

proof fn lemma_run_exact(t: Seq<u8>, i: int, k: int)
    requires
        0 <= i,
        0 <= k,
        i + k <= t.len(),
        forall|j: int| i <= j < i + k ==> is_digit(#[trigger] t[j]),
        i + k == t.len() || !is_digit(t[i + k]),
    ensures
        digit_run(t, i) == k,
    decreases k,
{
    if k > 0 {
        lemma_run_exact(t, i + 1, k - 1);
    }
}

proof fn lemma_capped_small(x: nat)
    requires
        x <= 400,
    ensures
        capped(nat_digits(x)) == x,
{
    lemma_nat_digits(x);
}

/// Where the pieces of a scientific text stand.
#[verifier::rlimit(100)]
proof fn lemma_sci_layout(neg: bool, m: nat, e: int)
    requires
        double_wf(neg, m, e),
        use_scientific(m, e),
    ensures
        ({
            let t = double_text(neg, m, e);
            let n = nat_digits(m).len() as int;
            let x = n - 1 + e;
            &&& sign_len(t) == 1
            &&& int_end(t) == 2
            &&& frac_end(t) == (if n > 1 { n + 2 } else { 2 })
            &&& frac_len(t) == n - 1
            &&& has_exp(t)
            &&& exp_start(t) == (if x < 0 { frac_end(t) + 2 } else { frac_end(t) + 1 })
            &&& mant_digits(t) == nat_digits(m)
            &&& forall|j: int| 1 <= j < frac_end(t) && j != 2 ==> is_digit(#[trigger] t[j])
            &&& t[0] != 13u8 && t[frac_end(t)] == 101u8
            &&& (x < 0 ==> t[frac_end(t) + 1] == 45u8)
            &&& t.subrange(exp_start(t), t.len() as int) == nat_digits(if x < 0 { (-x) as nat } else { x as nat })
        }),
{
    let d = nat_digits(m);
    lemma_nat_digits(m);
    lemma_significand_digits(m);
    let n = d.len() as int;
    let x = n - 1 + e;
    let sign = if neg { seq![45u8] } else { seq![43u8] };
    let t = double_text(neg, m, e);
    assert(forall|j: int| 0 <= j < n ==> is_digit(#[trigger] d[j]));
    let ax: nat = if x < 0 { (-x) as nat } else { x as nat };
    let xd = nat_digits(ax);
    let mid: Seq<u8> = if n > 1 { seq![46u8] + d.skip(1) } else { Seq::empty() };
    let etxt = if x < 0 { seq![45u8] + xd } else { xd };
    assert(t =~= sign + d.take(1) + mid + seq![101u8] + etxt);
    let fe: int = if n > 1 { n + 2 } else { 2 };
    assert(t[fe] == 101u8);
    assert(t[1] == d[0]);
    assert(!is_digit(t[2]));
    lemma_run_exact(t, 1, 1);
    if n > 1 {
        assert forall|j: int| 3 <= j < 3 + (n - 1) implies is_digit(#[trigger] t[j]) by {
            assert(t[j] == d[j - 2]);
        }
        lemma_run_exact(t, 3, n - 1);
        assert(t.subrange(1, 2) + t.subrange(3, n + 2) =~= d);
    } else {
        assert(t.subrange(1, 2) =~= d);
    }
    let q1: int = if x < 0 { fe + 2 } else { fe + 1 };
    assert(t.subrange(q1, t.len() as int) =~= xd);
    lemma_nat_digits(ax);
    assert(is_digit(xd[0]));
}

/// The exponent of a scientific text: digits to the end, reading as the
/// decimal exponent of the leading digit.
#[verifier::rlimit(100)]
proof fn lemma_sci_exponent(neg: bool, m: nat, e: int)
    requires
        double_wf(neg, m, e),
        use_scientific(m, e),
    ensures
        exp_end(double_text(neg, m, e)) == double_text(neg, m, e).len(),
        exp_end(double_text(neg, m, e)) > exp_start(double_text(neg, m, e)),
        exp_value(double_text(neg, m, e)) == sci_exponent(m, e),
        forall|j: int| exp_start(double_text(neg, m, e)) <= j < double_text(neg, m, e).len()
            ==> is_digit(#[trigger] double_text(neg, m, e)[j]),
{
    lemma_sci_layout(neg, m, e);
    let t = double_text(neg, m, e);
    let n = nat_digits(m).len() as int;
    let x = n - 1 + e;
    let ax: nat = if x < 0 { (-x) as nat } else { x as nat };
    let xd = nat_digits(ax);
    lemma_nat_digits(ax);
    lemma_capped_small(ax);
    let q1 = exp_start(t);
    assert forall|j: int| q1 <= j < q1 + xd.len() implies is_digit(#[trigger] t[j]) by {
        assert(t.subrange(q1, t.len() as int)[j - q1] == t[j]);
    }
    lemma_run_exact(t, q1, xd.len() as int);
    assert(t.subrange(q1, exp_end(t)) == xd);
}

#[verifier::rlimit(100)]
proof fn lemma_round_trip_sci(neg: bool, m: nat, e: int)
    requires
        double_wf(neg, m, e),
        use_scientific(m, e),
    ensures
        parse_double(double_text(neg, m, e)) == Some((neg, m, e)),
        crate::number::no_cr(double_text(neg, m, e)),
{
    lemma_sci_layout(neg, m, e);
    lemma_sci_exponent(neg, m, e);
    lemma_fold_digits(m);
    let t = double_text(neg, m, e);
    assert(t[0] == 45u8 <==> neg);
    assert forall|j: int| 0 <= j < t.len() implies t[j] != 13u8 by {
        if j >= exp_start(t) {
            assert(is_digit(t[j]));
        }
    }
}

proof fn lemma_round_trip_whole(neg: bool, m: nat, e: int)
    requires
        double_wf(neg, m, e),
        !use_scientific(m, e),
        e >= 0,
    ensures
        parse_double(double_text(neg, m, e)) == Some((neg, m, e)),
        crate::number::no_cr(double_text(neg, m, e)),
{
    let d = nat_digits(m);
    lemma_nat_digits(m);
    lemma_significand_digits(m);
    lemma_fold_digits(m);
    let n = d.len() as int;
    let sign = if neg { seq![45u8] } else { seq![43u8] };
    let t = double_text(neg, m, e);
    assert(forall|j: int| 0 <= j < n ==> is_digit(#[trigger] d[j]));
    let z = zeros(e as nat);
    assert(t =~= sign + (d + z));
    assert(forall|j: int| 0 <= j < z.len() ==> is_digit(#[trigger] z[j]));
    assert forall|j: int| 1 <= j < t.len() implies is_digit(#[trigger] t[j]) by {
        if j - 1 < n {
            assert(t[j] == d[j - 1]);
        } else {
            assert(t[j] == z[j - 1 - n]);
        }
    }
    lemma_run_exact(t, 1, n + e);
    assert(sign_len(t) == 1);
    assert(int_end(t) == t.len());
    assert(mant_digits(t) =~= d + z);
    if m != 0 {
        lemma_fold_trailing_zeros(d, e as nat);
    } else {
        assert(d + z =~= d);
    }
}

proof fn lemma_round_trip_point(neg: bool, m: nat, e: int)
    requires
        double_wf(neg, m, e),
        !use_scientific(m, e),
        e < 0,
        nat_digits(m).len() + e > 0,
    ensures
        parse_double(double_text(neg, m, e)) == Some((neg, m, e)),
        crate::number::no_cr(double_text(neg, m, e)),
{
    let d = nat_digits(m);
    lemma_nat_digits(m);
    lemma_significand_digits(m);
    lemma_fold_digits(m);
    let n = d.len() as int;
    let sign = if neg { seq![45u8] } else { seq![43u8] };
    let t = double_text(neg, m, e);
    assert(forall|j: int| 0 <= j < n ==> is_digit(#[trigger] d[j]));
    let p = n + e;
    assert(t =~= sign + (d.take(p) + seq![46u8] + d.skip(p)));
    assert forall|j: int| 1 <= j < t.len() && j != p + 1 implies is_digit(#[trigger] t[j]) by {
        if j <= p {
            assert(t[j] == d[j - 1]);
        } else {
            assert(t[j] == d[j - 2]);
        }
    }
    lemma_run_exact(t, 1, p);
    lemma_run_exact(t, p + 2, -e);
    assert(sign_len(t) == 1);
    assert(int_end(t) == p + 1);
    assert(has_point(t));
    assert(frac_end(t) == t.len());
    assert(t.subrange(1, p + 1) + t.subrange(p + 2, n + 2) =~= d);
    assert(mant_digits(t) =~= d);
}

proof fn lemma_round_trip_small(neg: bool, m: nat, e: int)
    requires
        double_wf(neg, m, e),
        !use_scientific(m, e),
        e < 0,
        nat_digits(m).len() + e <= 0,
    ensures
        parse_double(double_text(neg, m, e)) == Some((neg, m, e)),
        crate::number::no_cr(double_text(neg, m, e)),
{
    let d = nat_digits(m);
    lemma_nat_digits(m);
    lemma_significand_digits(m);
    lemma_fold_digits(m);
    let n = d.len() as int;
    let sign = if neg { seq![45u8] } else { seq![43u8] };
    let t = double_text(neg, m, e);
    assert(forall|j: int| 0 <= j < n ==> is_digit(#[trigger] d[j]));
    let k = -(n + e);
    let z = zeros(k as nat);
    assert(t =~= sign + (seq![48u8, 46u8] + z + d));
    assert forall|j: int| 1 <= j < t.len() && j != 2 implies is_digit(#[trigger] t[j]) by {
        if j >= 3 && j < 3 + k {
            assert(t[j] == z[j - 3]);
        } else if j >= 3 + k {
            assert(t[j] == d[j - 3 - k]);
        }
    }
    lemma_run_exact(t, 1, 1);
    lemma_run_exact(t, 3, k + n);
    assert(sign_len(t) == 1);
    assert(int_end(t) == 2);
    assert(has_point(t));
    assert(frac_end(t) == t.len());
    assert(mant_digits(t) =~= zeros((k + 1) as nat) + d);
    lemma_fold_concat(zeros((k + 1) as nat), d);
    lemma_fold_zeros((k + 1) as nat);
    lemma_fold_from_start(d);
}

/// The text of a double reads back as the same double, and holds no CR.
pub proof fn lemma_double_round_trip(neg: bool, m: nat, e: int)
    requires
        double_wf(neg, m, e),
    ensures
        parse_double(double_text(neg, m, e)) == Some((neg, m, e)),
        crate::number::no_cr(double_text(neg, m, e)),
{
    if use_scientific(m, e) {
        lemma_round_trip_sci(neg, m, e);
    } else if e >= 0 {
        lemma_round_trip_whole(neg, m, e);
    } else if nat_digits(m).len() + e > 0 {
        lemma_round_trip_point(neg, m, e);
    } else {
        lemma_round_trip_small(neg, m, e);
    }
}

} // verus!
