//! Exact comparison of numeric strings, used by the `Gt`/`Lt` variable
//! expressions.  A numeric string follows the shape accepted by Rust's
//! float parser — an optional sign, digits with an optional fraction and
//! decimal exponent, or the words `inf`, `infinity` and `nan`, all
//! case-insensitive — and two finite values are compared exactly, by their
//! decimal value.  An exponent with more than eighteen significant digits
//! is rejected.

use vstd::prelude::*;
use vstd::string::*;

verus! {

/// Ten to the power `n`.
pub open spec fn pow10(n: nat) -> int
    decreases n,
{
    if n == 0 {
        1
    } else {
        10 * pow10((n - 1) as nat)
    }
}

pub proof fn lemma_pow10_pos(n: nat)
    ensures
        pow10(n) >= 1,
    decreases n,
{
    if n > 0 {
        lemma_pow10_pos((n - 1) as nat);
    }
}

pub proof fn lemma_pow10_mono(a: nat, b: nat)
    requires
        a <= b,
    ensures
        pow10(a) <= pow10(b),
    decreases b,
{
    if a < b && b > 0 {
        lemma_pow10_mono(a, (b - 1) as nat);
        lemma_pow10_pos((b - 1) as nat);
    }
}

pub proof fn lemma_pow10_add(a: nat, b: nat)
    ensures
        pow10(a + b) == pow10(a) * pow10(b),
    decreases a,
{
    if a == 0 {
    } else {
        lemma_pow10_add((a - 1) as nat, b);
        assert(pow10(a + b) == 10 * pow10((a + b - 1) as nat));
        assert(10 * (pow10((a - 1) as nat) * pow10(b)) == (10 * pow10((a - 1) as nat)) * pow10(b))
            by (nonlinear_arith);
    }
}

/// The integer read from a digit sequence, most significant digit first.
pub open spec fn digits_int(ds: Seq<u8>) -> int
    decreases ds.len(),
{
    if ds.len() == 0 {
        0
    } else {
        10 * digits_int(ds.drop_last()) + ds.last()
    }
}

/// Every digit value is at most nine.
pub open spec fn digits_ok(ds: Seq<u8>) -> bool {
    forall|i: int| 0 <= i < ds.len() ==> ds[i] <= 9
}

pub proof fn lemma_digits_int_bound(ds: Seq<u8>)
    requires
        digits_ok(ds),
    ensures
        0 <= digits_int(ds) < pow10(ds.len() as nat),
    decreases ds.len(),
{
    if ds.len() > 0 {
        lemma_digits_int_bound(ds.drop_last());
        assert(ds.last() <= 9);
    }
}

pub proof fn lemma_digits_int_msd(ds: Seq<u8>)
    requires
        ds.len() > 0,
        ds[0] >= 1,
    ensures
        digits_int(ds) >= pow10((ds.len() - 1) as nat),
    decreases ds.len(),
{
    if ds.len() == 1 {
    } else {
        assert(ds.drop_last()[0] == ds[0]);
        lemma_digits_int_msd(ds.drop_last());
        let q = pow10((ds.len() - 2) as nat);
        assert(10 * digits_int(ds.drop_last()) >= 10 * q) by (nonlinear_arith)
            requires
                digits_int(ds.drop_last()) >= q,
        ;
        assert(ds.last() >= 0);
    }
}

/// Leading zeroes do not change the value.
pub proof fn lemma_digits_skip_zeros(ds: Seq<u8>, k: int)
    requires
        0 <= k <= ds.len(),
        forall|j: int| 0 <= j < k ==> ds[j] == 0,
    ensures
        digits_int(ds) == digits_int(ds.skip(k)),
    decreases ds.len(),
{
    if k == ds.len() {
        lemma_digits_all_zero(ds);
        assert(ds.skip(k) =~= Seq::<u8>::empty());
    } else if ds.len() > 0 {
        assert(ds.skip(k).drop_last() =~= ds.drop_last().skip(k));
        lemma_digits_skip_zeros(ds.drop_last(), k);
        assert(ds.skip(k).last() == ds.last());
    }
}

pub proof fn lemma_digits_all_zero(ds: Seq<u8>)
    requires
        forall|j: int| 0 <= j < ds.len() ==> ds[j] == 0,
    ensures
        digits_int(ds) == 0,
    decreases ds.len(),
{
    if ds.len() > 0 {
        lemma_digits_all_zero(ds.drop_last());
    }
}

/// Splitting a digit sequence splits its value.
pub proof fn lemma_digits_split(ds: Seq<u8>, k: int)
    requires
        0 <= k <= ds.len(),
    ensures
        digits_int(ds) == digits_int(ds.take(k)) * pow10((ds.len() - k) as nat) + digits_int(
            ds.skip(k),
        ),
    decreases ds.len() - k,
{
    if k == ds.len() {
        assert(ds.take(k) =~= ds);
        assert(ds.skip(k) =~= Seq::<u8>::empty());
    } else {
        lemma_digits_split(ds.drop_last(), k);
        assert(ds.drop_last().take(k) =~= ds.take(k));
        assert(ds.drop_last().skip(k) =~= ds.skip(k).drop_last());
        assert(ds.skip(k).len() > 0);
        assert(ds.skip(k).last() == ds.last());
        let n = (ds.len() - 1 - k) as nat;
        assert(digits_int(ds) == 10 * digits_int(ds.drop_last()) + ds.last());
        assert(digits_int(ds.drop_last()) == digits_int(ds.take(k)) * pow10(n) + digits_int(
            ds.skip(k).drop_last(),
        ));
        assert(10 * (digits_int(ds.take(k)) * pow10(n)) == digits_int(ds.take(k)) * (10 * pow10(n)))
            by (nonlinear_arith);
        assert(pow10(n + 1) == 10 * pow10(n));
        assert((ds.len() - k) as nat == n + 1);
    }
}

/// A first differing digit decides the order of equally long sequences.
pub proof fn lemma_digits_lex(a: Seq<u8>, b: Seq<u8>, i: int)
    requires
        digits_ok(a),
        digits_ok(b),
        a.len() == b.len(),
        0 <= i < a.len(),
        forall|j: int| 0 <= j < i ==> a[j] == b[j],
        a[i] > b[i],
    ensures
        digits_int(a) > digits_int(b),
{
    let len = a.len() as int;
    lemma_digits_split(a, i + 1);
    lemma_digits_split(b, i + 1);
    assert(a.take(i + 1).drop_last() =~= a.take(i));
    assert(b.take(i + 1).drop_last() =~= b.take(i));
    assert(a.take(i) =~= b.take(i));
    assert(digits_int(a.take(i + 1)) == 10 * digits_int(a.take(i)) + a[i]);
    assert(digits_int(b.take(i + 1)) == 10 * digits_int(b.take(i)) + b[i]);
    let d = digits_int(a.take(i + 1)) - digits_int(b.take(i + 1));
    assert(d >= 1);
    assert(digits_ok(a.skip(i + 1)));
    assert(digits_ok(b.skip(i + 1)));
    lemma_digits_int_bound(a.skip(i + 1));
    lemma_digits_int_bound(b.skip(i + 1));
    let p = pow10((len - i - 1) as nat);
    lemma_pow10_pos((len - i - 1) as nat);
    let ha = digits_int(a.take(i + 1));
    let hb = digits_int(b.take(i + 1));
    let ra = digits_int(a.skip(i + 1));
    let rb = digits_int(b.skip(i + 1));
    assert(ha * p + ra > hb * p + rb) by (nonlinear_arith)
        requires
            ha - hb >= 1,
            ra >= 0,
            0 <= rb < p,
            p >= 1,
    ;
}

/// The spec-level value of a parsed numeric string.
pub enum NumView {
    /// Not a number: every comparison is false.
    Nan,
    /// Infinity; `true` means negative.
    Inf(bool),
    /// The finite value `(-1)^neg * digits * 10^exp`.
    Finite { neg: bool, digits: Seq<u8>, exp: int },
}

/// `v` with a sign applied.
pub open spec fn signed(neg: bool, v: int) -> int {
    if neg {
        -v
    } else {
        v
    }
}

/// Exact order on parsed numeric values: `a > b`.  `nan` compares false
/// with everything; infinities compare by sign; finite values compare by
/// their exact decimal value.
pub open spec fn num_gt(a: NumView, b: NumView) -> bool {
    match (a, b) {
        (NumView::Nan, _) => false,
        (_, NumView::Nan) => false,
        (NumView::Inf(an), NumView::Inf(bn)) => !an && bn,
        (NumView::Inf(an), NumView::Finite { .. }) => !an,
        (NumView::Finite { .. }, NumView::Inf(bn)) => bn,
        (
            NumView::Finite { neg: an, digits: ad, exp: ae },
            NumView::Finite { neg: bn, digits: bd, exp: be },
        ) => {
            let m = if ae <= be {
                ae
            } else {
                be
            };
            signed(an, digits_int(ad) * pow10((ae - m) as nat)) > signed(
                bn,
                digits_int(bd) * pow10((be - m) as nat),
            )
        },
    }
}

/// Whether `c` is an ASCII digit.
pub open spec fn is_digit(c: char) -> bool {
    48 <= c as int <= 57
}

/// The digit values of a run of ASCII digits.
pub open spec fn digit_vals(s: Seq<char>) -> Seq<u8> {
    s.map_values(|c: char| (c as int - 48) as u8)
}

/// The length of the maximal digit prefix of `s`.
pub open spec fn digit_run(s: Seq<char>) -> int
    decreases s.len(),
{
    if s.len() > 0 && is_digit(s[0]) {
        1 + digit_run(s.skip(1))
    } else {
        0
    }
}

/// The length of the maximal `0` prefix of `s`.
pub open spec fn zeros_run(s: Seq<char>) -> int
    decreases s.len(),
{
    if s.len() > 0 && s[0] == '0' {
        1 + zeros_run(s.skip(1))
    } else {
        0
    }
}

pub proof fn lemma_digit_run_is(s: Seq<char>, i: int)
    requires
        0 <= i <= s.len(),
        i < s.len() ==> !is_digit(s[i]),
        forall|k: int| 0 <= k < i ==> is_digit(s[k]),
    ensures
        digit_run(s) == i,
    decreases s.len(),
{
    if s.len() > 0 && is_digit(s[0]) {
        assert(i > 0);
        assert forall|k: int| 0 <= k < i - 1 implies is_digit(s.skip(1)[k]) by {
            assert(s.skip(1)[k] == s[k + 1]);
        }
        if i - 1 < s.skip(1).len() {
            assert(s.skip(1)[i - 1] == s[i]);
        }
        lemma_digit_run_is(s.skip(1), i - 1);
    } else {
        assert(i == 0);
    }
}

pub proof fn lemma_zeros_run_is(s: Seq<char>, i: int)
    requires
        0 <= i <= s.len(),
        i < s.len() ==> s[i] != '0',
        forall|k: int| 0 <= k < i ==> s[k] == '0',
    ensures
        zeros_run(s) == i,
    decreases s.len(),
{
    if s.len() > 0 && s[0] == '0' {
        assert(i > 0);
        assert forall|k: int| 0 <= k < i - 1 implies s.skip(1)[k] == '0' by {
            assert(s.skip(1)[k] == s[k + 1]);
        }
        if i - 1 < s.skip(1).len() {
            assert(s.skip(1)[i - 1] == s[i]);
        }
        lemma_zeros_run_is(s.skip(1), i - 1);
    } else {
        assert(i == 0);
    }
}

/// The ASCII code of `c` folded to lower case.
pub open spec fn lc_int(c: char) -> int {
    if 65 <= c as int <= 90 {
        c as int + 32
    } else {
        c as int
    }
}

/// Case-insensitive comparison of `a` against an all-lower-case `b`.
pub open spec fn ci_eq(a: Seq<char>, b: Seq<char>) -> bool {
    a.len() == b.len() && forall|i: int| 0 <= i < a.len() ==> lc_int(a[i]) == b[i] as int
}

/// The exponent suffix of a numeric string: nothing (exponent zero), or
/// `e`/`E`, an optional sign, and at least one digit, at most eighteen of
/// them significant.
pub open spec fn parse_exp_part(r: Seq<char>) -> Option<int> {
    if r.len() == 0 {
        Some(0)
    } else if r[0] == 'e' || r[0] == 'E' {
        let er = if r.len() > 1 && (r[1] == '+' || r[1] == '-') {
            r.skip(2)
        } else {
            r.skip(1)
        };
        let eneg = r.len() > 1 && r[1] == '-';
        if er.len() >= 1 && digit_run(er) == er.len() && er.len() - zeros_run(er) <= 18 {
            Some(signed(eneg, digits_int(digit_vals(er))))
        } else {
            None
        }
    } else {
        None
    }
}

/// The unsigned decimal body of a numeric string: digits with an optional
/// fraction, or a fraction alone, followed by the exponent suffix.
pub open spec fn parse_decimal(neg: bool, b: Seq<char>) -> Option<NumView> {
    let d1 = digit_run(b);
    if d1 > 0 {
        let ip = b.take(d1);
        let rest1 = b.skip(d1);
        if rest1.len() > 0 && rest1[0] == '.' {
            let d2 = digit_run(rest1.skip(1));
            let fp = rest1.skip(1).take(d2);
            let rest2 = rest1.skip(1).skip(d2);
            match parse_exp_part(rest2) {
                Some(e) => Some(
                    NumView::Finite {
                        neg,
                        digits: digit_vals(ip) + digit_vals(fp),
                        exp: e - d2,
                    },
                ),
                None => None,
            }
        } else {
            match parse_exp_part(rest1) {
                Some(e) => Some(NumView::Finite { neg, digits: digit_vals(ip), exp: e }),
                None => None,
            }
        }
    } else if b.len() > 0 && b[0] == '.' {
        let d2 = digit_run(b.skip(1));
        if d2 > 0 {
            let fp = b.skip(1).take(d2);
            let rest2 = b.skip(1).skip(d2);
            match parse_exp_part(rest2) {
                Some(e) => Some(NumView::Finite { neg, digits: digit_vals(fp), exp: e - d2 }),
                None => None,
            }
        } else {
            None
        }
    } else {
        None
    }
}

/// The value of a numeric string, or `None` when the string is not numeric.
pub open spec fn parse_num(s: Seq<char>) -> Option<NumView> {
    let neg = s.len() > 0 && s[0] == '-';
    let body = if s.len() > 0 && (s[0] == '-' || s[0] == '+') {
        s.skip(1)
    } else {
        s
    };
    if ci_eq(body, "inf"@) || ci_eq(body, "infinity"@) {
        Some(NumView::Inf(neg))
    } else if ci_eq(body, "nan"@) {
        Some(NumView::Nan)
    } else {
        parse_decimal(neg, body)
    }
}

/// Whether the numeric value of `a` exceeds that of `b`; false when either
/// string is not numeric.
pub open spec fn num_gt_spec(a: Seq<char>, b: Seq<char>) -> bool {
    match (parse_num(a), parse_num(b)) {
        (Some(x), Some(y)) => num_gt(x, y),
        _ => false,
    }
}

/// A parsed numeric string.
pub enum Num {
    Nan,
    Inf(bool),
    Finite(NumFin),
}

/// A finite parsed value: `(-1)^neg * digits * 10^exp`.
pub struct NumFin {
    pub neg: bool,
    pub digits: Vec<u8>,
    pub exp: i128,
}

impl View for Num {
    type V = NumView;

    open spec fn view(&self) -> NumView {
        match self {
            Num::Nan => NumView::Nan,
            Num::Inf(n) => NumView::Inf(*n),
            Num::Finite(f) => NumView::Finite { neg: f.neg, digits: f.digits@, exp: f.exp as int },
        }
    }
}

/// Case-insensitive comparison of `s` from `from` on against an ASCII
/// lower-case literal.
fn eq_ci_from(s: &str, from: usize, lit: &str) -> (r: bool)
    requires
        from <= s@.len(),
    ensures
        r == ci_eq(s@.skip(from as int), lit@),
{
    let slen = s.unicode_len();
    let llen = lit.unicode_len();
    if slen - from != llen {
        return false;
    }
    let mut i: usize = 0;
    while i < llen
        invariant
            from + llen <= slen,
            slen == s@.len(),
            llen == lit@.len(),
            0 <= i <= llen,
            forall|k: int| 0 <= k < i ==> lc_int(s@.skip(from as int)[k]) == lit@[k] as int,
        decreases llen - i,
    {
        let c = s.get_char(from + i) as u32;
        let folded: u32 = if 65 <= c && c <= 90 {
            c + 32
        } else {
            c
        };
        if folded != lit.get_char(i) as u32 {
            assert(lc_int(s@.skip(from as int)[i as int]) != lit@[i as int] as int);
            return false;
        }
        i += 1;
    }
    true
}

/// The end of the digit run beginning at `from`.
fn digit_run_end(s: &str, from: usize) -> (r: usize)
    requires
        from <= s@.len(),
    ensures
        from <= r <= s@.len(),
        digit_run(s@.skip(from as int)) == r - from,
        forall|k: int| from <= k < r ==> is_digit(s@[k]),
        r < s@.len() ==> !is_digit(s@[r as int]),
{
    let len = s.unicode_len();
    let mut i: usize = from;
    while i < len
        invariant
            from <= i <= len,
            len == s@.len(),
            forall|k: int| from <= k < i ==> is_digit(s@[k]),
        decreases len - i,
    {
        let c = s.get_char(i) as u32;
        if !(48 <= c && c <= 57) {
            proof {
                assert forall|k: int| 0 <= k < i - from implies is_digit(
                    s@.skip(from as int)[k],
                ) by {
                    assert(s@.skip(from as int)[k] == s@[from + k]);
                }
                lemma_digit_run_is(s@.skip(from as int), i - from);
            }
            return i;
        }
        i += 1;
    }
    proof {
        assert forall|k: int| 0 <= k < len - from implies is_digit(s@.skip(from as int)[k]) by {
            assert(s@.skip(from as int)[k] == s@[from + k]);
        }
        lemma_digit_run_is(s@.skip(from as int), len - from);
    }
    len
}

/// Append the digit values of `s[from..to]` to `out`.
fn push_digits(out: &mut Vec<u8>, s: &str, from: usize, to: usize)
    requires
        from <= to <= s@.len(),
        forall|k: int| from <= k < to ==> is_digit(s@[k]),
    ensures
        final(out)@ =~= old(out)@ + digit_vals(s@.subrange(from as int, to as int)),
        digits_ok(old(out)@) ==> digits_ok(final(out)@),
{
    let ghost base = out@;
    let mut i: usize = from;
    while i < to
        invariant
            from <= i <= to <= s@.len(),
            forall|k: int| from <= k < to ==> is_digit(s@[k]),
            out@.len() == base.len() + (i - from),
            forall|k: int| 0 <= k < base.len() ==> out@[k] == base[k],
            forall|j: int| 0 <= j < i - from ==> (#[trigger] out@[base.len() + j]) as int
                == s@[from + j] as int - 48,
        decreases to - i,
    {
        proof {
            assert(is_digit(s@[i as int]));
        }
        let c = s.get_char(i) as u32;
        let d: u8 = (c - 48) as u8;
        proof {
            assert(d as int == s@[i as int] as int - 48);
            assert(from + (i - from) == i as int);
        }
        out.push(d);
        i += 1;
    }
    proof {
        let dv = digit_vals(s@.subrange(from as int, to as int));
        assert forall|j: int| 0 <= j < dv.len() implies out@[base.len() + j] == dv[j] by {
            assert(is_digit(s@[from + j]));
            assert(dv[j] == (s@[from + j] as int - 48) as u8);
            assert(out@[base.len() + j] as int == s@[from + j] as int - 48);
        }
        assert(out@ =~= base + dv);
        assert forall|j: int| 0 <= j < dv.len() implies dv[j] <= 9 by {
            assert(is_digit(s@[from + j]));
        }
    }
}

/// Parse the exponent suffix beginning at `from`.
fn parse_exp(s: &str, from: usize) -> (r: Option<i128>)
    requires
        from <= s@.len(),
    ensures
        match r {
            Some(e) => parse_exp_part(s@.skip(from as int)) == Some(e as int)
                && -1000000000000000000 <= e <= 1000000000000000000,
            None => parse_exp_part(s@.skip(from as int)) is None,
        },
{
    let ghost t = s@.skip(from as int);
    let len = s.unicode_len();
    if from == len {
        return Some(0);
    }
    let c0 = s.get_char(from);
    proof {
        assert(t[0] == s@[from as int]);
    }
    if !(c0 == 'e' || c0 == 'E') {
        return None;
    }
    let (eneg, dstart) = if from + 1 < len {
        let c1 = s.get_char(from + 1);
        proof {
            assert(t[1] == s@[from + 1]);
        }
        if c1 == '+' || c1 == '-' {
            (c1 == '-', from + 2)
        } else {
            (false, from + 1)
        }
    } else {
        (false, from + 1)
    };
    let ghost er = t.skip((dstart - from) as int);
    proof {
        assert(er =~= s@.skip(dstart as int));
    }
    if dstart == len {
        proof {
            assert(er.len() == 0);
        }
        return None;
    }
    let dend = digit_run_end(s, dstart);
    if dend != len {
        proof {
            assert(digit_run(er) == dend - dstart);
            assert(er.len() == len - dstart);
        }
        return None;
    }
    // strip leading zeroes of the exponent digits
    let mut z: usize = dstart;
    while z < len && s.get_char(z) == '0'
        invariant
            dstart <= z <= len,
            len == s@.len(),
            forall|k: int| dstart <= k < z ==> s@[k] == '0',
        decreases len - z,
    {
        z += 1;
    }
    proof {
        assert forall|k: int| 0 <= k < z - dstart implies er[k] == '0' by {
            assert(er[k] == s@[dstart + k]);
        }
        if z < len {
            assert(er[z - dstart] == s@[z as int]);
        }
        lemma_zeros_run_is(er, z - dstart);
        assert(digit_run(er) == er.len());
    }
    if len - z > 18 {
        return None;
    }
    // read the value of the digits after the zeroes
    let mut v: i128 = 0;
    let mut i: usize = z;
    let ghost zn = z - dstart;
    proof {
        assert(digit_vals(er.skip(zn).take(0)) =~= Seq::<u8>::empty());
    }
    while i < len
        invariant
            z <= i <= len,
            len - z <= 18,
            len == s@.len(),
            zn == z - dstart,
            dstart <= z,
            er == s@.skip(dstart as int),
            er.len() == len - dstart,
            forall|k: int| dstart <= k < len ==> is_digit(s@[k]),
            v == digits_int(digit_vals(er.skip(zn).take(i - z))),
            0 <= v < pow10((i - z) as nat),
        decreases len - i,
    {
        let c = s.get_char(i) as u32;
        let d: i128 = (c - 48) as i128;
        proof {
            lemma_pow10_mono((i - z + 1) as nat, 18);
            lemma_pow10_18();
            assert(10 * v + d < 10 * pow10((i - z) as nat)) by (nonlinear_arith)
                requires
                    v < pow10((i - z) as nat),
                    d <= 9,
                    v >= 0,
            ;
            let pre = digit_vals(er.skip(zn).take(i - z));
            let cur = digit_vals(er.skip(zn).take(i - z + 1));
            assert(cur.drop_last() =~= pre);
            assert(er.skip(zn)[i - z] == s@[i as int]);
            assert(cur.last() == (s@[i as int] as int - 48) as u8);
        }
        v = 10 * v + d;
        i += 1;
    }
    proof {
        assert(er.skip(zn).take(len - z) =~= er.skip(zn));
        lemma_digits_skip_vals(er, zn);
        lemma_pow10_mono((len - z) as nat, 18);
        lemma_pow10_18();
    }
    if eneg {
        Some(-v)
    } else {
        Some(v)
    }
}

/// Ten to the eighteenth power, spelled out.
pub proof fn lemma_pow10_18()
    ensures
        pow10(18) == 1000000000000000000,
{
    reveal_with_fuel(pow10, 20);
}

/// Skipping leading `0` characters of a digit run does not change the
/// value read from it.
proof fn lemma_digits_skip_vals(er: Seq<char>, zn: int)
    requires
        0 <= zn <= er.len(),
        forall|k: int| 0 <= k < zn ==> er[k] == '0',
    ensures
        digits_int(digit_vals(er.skip(zn))) == digits_int(digit_vals(er)),
{
    assert(digit_vals(er).skip(zn) =~= digit_vals(er.skip(zn)));
    assert forall|j: int| 0 <= j < zn implies digit_vals(er)[j] == 0 by {
        assert(er[j] == '0');
    }
    lemma_digits_skip_zeros(digit_vals(er), zn);
}

/// Parse a numeric string.
#[verifier::rlimit(100)]
pub fn parse_number(s: &str) -> (r: Option<Num>)
    ensures
        match r {
            Some(n) => parse_num(s@) == Some(n@) && (n matches Num::Finite(f) ==> digits_ok(
                f.digits@,
            ) && -40000000000000000000 <= f.exp <= 40000000000000000000),
            None => parse_num(s@) is None,
        },
{
    let len = s.unicode_len();
    let (neg, start): (bool, usize) = if len > 0 {
        let c = s.get_char(0);
        if c == '-' {
            (true, 1)
        } else if c == '+' {
            (false, 1)
        } else {
            (false, 0)
        }
    } else {
        (false, 0)
    };
    let ghost body = s@.skip(start as int);
    proof {
        if start == 0 {
            assert(body =~= s@);
        }
    }
    if eq_ci_from(s, start, "inf") || eq_ci_from(s, start, "infinity") {
        return Some(Num::Inf(neg));
    }
    if eq_ci_from(s, start, "nan") {
        return Some(Num::Nan);
    }
    // decimal body
    let d1end = digit_run_end(s, start);
    proof {
        assert(digit_run(body) == d1end - start);
    }
    if d1end > start {
        let ghost ip = body.take(d1end - start);
        let mut digits: Vec<u8> = Vec::new();
        push_digits(&mut digits, s, start, d1end);
        proof {
            assert(s@.subrange(start as int, d1end as int) =~= ip);
        }
        if d1end < len && s.get_char(d1end) == '.' {
            proof {
                assert(body.skip(d1end - start)[0] == s@[d1end as int]);
            }
            let d2end = digit_run_end(s, d1end + 1);
            let ghost rest1 = body.skip(d1end - start);
            let ghost fp = rest1.skip(1).take(d2end - (d1end + 1));
            proof {
                assert(rest1.skip(1) =~= s@.skip(d1end + 1));
                assert(digit_run(rest1.skip(1)) == d2end - (d1end + 1));
                assert(s@.subrange(d1end + 1, d2end as int) =~= fp);
                assert(rest1.skip(1).skip(d2end - (d1end + 1)) =~= s@.skip(d2end as int));
            }
            push_digits(&mut digits, s, d1end + 1, d2end);
            match parse_exp(s, d2end) {
                Some(e) => {
                    let frac_len: i128 = (d2end - (d1end + 1)) as i128;
                    proof {
                        assert(digits@ =~= digit_vals(ip) + digit_vals(fp));
                    }
                    Some(Num::Finite(NumFin { neg, digits, exp: e - frac_len }))
                },
                None => None,
            }
        } else {
            proof {
                if d1end < len {
                    assert(body.skip(d1end - start)[0] == s@[d1end as int]);
                    assert(body.skip(d1end - start)[0] != '.');
                }
                assert(body.skip(d1end - start) =~= s@.skip(d1end as int));
            }
            match parse_exp(s, d1end) {
                Some(e) => {
                    proof {
                        assert(digits@ =~= digit_vals(ip));
                    }
                    Some(Num::Finite(NumFin { neg, digits, exp: e }))
                },
                None => None,
            }
        }
    } else if start < len && s.get_char(start) == '.' {
        proof {
            assert(body[0] == s@[start as int]);
        }
        let d2end = digit_run_end(s, start + 1);
        proof {
            assert(body.skip(1) =~= s@.skip(start + 1));
            assert(digit_run(body.skip(1)) == d2end - (start + 1));
        }
        if d2end > start + 1 {
            let ghost fp = body.skip(1).take(d2end - (start + 1));
            let mut digits: Vec<u8> = Vec::new();
            push_digits(&mut digits, s, start + 1, d2end);
            proof {
                assert(s@.subrange(start + 1, d2end as int) =~= fp);
                assert(body.skip(1).skip(d2end - (start + 1)) =~= s@.skip(d2end as int));
            }
            match parse_exp(s, d2end) {
                Some(e) => {
                    let frac_len: i128 = (d2end - (start + 1)) as i128;
                    proof {
                        assert(digits@ =~= digit_vals(fp));
                    }
                    Some(Num::Finite(NumFin { neg, digits, exp: e - frac_len }))
                },
                None => None,
            }
        } else {
            None
        }
    } else {
        proof {
            if start < len {
                assert(body[0] == s@[start as int]);
            }
        }
        None
    }
}

/// The position of the first nonzero digit, or the length.
fn first_nonzero(ds: &Vec<u8>) -> (r: usize)
    ensures
        r <= ds@.len(),
        forall|j: int| 0 <= j < r ==> ds@[j] == 0,
        r < ds@.len() ==> ds@[r as int] != 0,
{
    let n = ds.len();
    let mut i: usize = 0;
    while i < n
        invariant
            n == ds@.len(),
            0 <= i <= n,
            forall|j: int| 0 <= j < i ==> ds@[j] == 0,
        decreases n - i,
    {
        if ds[i] != 0 {
            return i;
        }
        i += 1;
    }
    n
}

/// A digit sequence scaled up to the common exponent `m`.
pub open spec fn mag_scaled(d: Seq<u8>, e: int, m: int) -> int {
    digits_int(d) * pow10((e - m) as nat)
}

enum Rel {
    Lt,
    Eq,
    Gt,
}

/// `xs` padded with zeroes up to length `l`.
spec fn padded(xs: Seq<u8>, l: int) -> Seq<u8> {
    xs + Seq::new((l - xs.len()) as nat, |i: int| 0u8)
}

proof fn lemma_digits_pad(xs: Seq<u8>, l: int)
    requires
        xs.len() <= l,
    ensures
        padded(xs, l).len() == l,
        digits_int(padded(xs, l)) == digits_int(xs) * pow10((l - xs.len()) as nat),
{
    let px = padded(xs, l);
    lemma_digits_split(px, xs.len() as int);
    assert(px.take(xs.len() as int) =~= xs);
    assert(px.skip(xs.len() as int) =~= Seq::new((l - xs.len()) as nat, |i: int| 0u8));
    lemma_digits_all_zero(px.skip(xs.len() as int));
}

/// The scaled magnitude written over the padded digits.
proof fn lemma_mag_repr(xs: Seq<u8>, e: int, m: int, l: int)
    requires
        m <= e,
        xs.len() <= l,
        e - m + xs.len() >= l,
    ensures
        mag_scaled(xs, e, m) == digits_int(padded(xs, l)) * pow10((e - m + xs.len() - l) as nat),
{
    lemma_digits_pad(xs, l);
    let k = (l - xs.len()) as nat;
    let c = (e - m + xs.len() - l) as nat;
    lemma_pow10_add(k, c);
    assert((digits_int(xs) * pow10(k)) * pow10(c) == digits_int(xs) * (pow10(k) * pow10(c)))
        by (nonlinear_arith);
    assert(k + c == (e - m) as nat);
}

/// Compare two nonzero magnitudes `digits * 10^exp`, given the position of
/// each first nonzero digit.
#[verifier::rlimit(100)]
fn mag_rel(fd: &Vec<u8>, nzx: usize, fe: i128, gd: &Vec<u8>, nzy: usize, ge: i128) -> (r: Rel)
    requires
        digits_ok(fd@),
        digits_ok(gd@),
        nzx < fd@.len(),
        nzy < gd@.len(),
        forall|j: int| 0 <= j < nzx ==> fd@[j] == 0,
        forall|j: int| 0 <= j < nzy ==> gd@[j] == 0,
        fd@[nzx as int] != 0,
        gd@[nzy as int] != 0,
        -40000000000000000000 <= fe <= 40000000000000000000,
        -40000000000000000000 <= ge <= 40000000000000000000,
    ensures
        ({
            let m = if fe <= ge {
                fe as int
            } else {
                ge as int
            };
            let ma = mag_scaled(fd@, fe as int, m);
            let mb = mag_scaled(gd@, ge as int, m);
            ((r is Gt) == (ma > mb)) && ((r is Lt) == (ma < mb)) && ((r is Eq) == (ma == mb))
        }),
{
    let ghost m: int = if fe <= ge {
        fe as int
    } else {
        ge as int
    };
    let ghost xs = fd@.skip(nzx as int);
    let ghost ys = gd@.skip(nzy as int);
    let ghost lx = xs.len() as int;
    let ghost ly = ys.len() as int;
    proof {
        lemma_digits_skip_zeros(fd@, nzx as int);
        lemma_digits_skip_zeros(gd@, nzy as int);
        assert(xs[0] == fd@[nzx as int]);
        assert(ys[0] == gd@[nzy as int]);
        assert(digits_ok(xs));
        assert(digits_ok(ys));
        lemma_digits_int_msd(xs);
        lemma_digits_int_msd(ys);
        lemma_digits_int_bound(xs);
        lemma_digits_int_bound(ys);
    }
    let effx: i128 = fe + (fd.len() - nzx) as i128;
    let effy: i128 = ge + (gd.len() - nzy) as i128;
    let ghost ex = effx as int - m;
    let ghost ey = effy as int - m;
    if effx != effy {
        proof {
            let gtx = effx > effy;
            let hi = if gtx {
                ex
            } else {
                ey
            };
            let lo = if gtx {
                ey
            } else {
                ex
            };
            let hd = if gtx {
                xs
            } else {
                ys
            };
            let ld = if gtx {
                ys
            } else {
                xs
            };
            let he = if gtx {
                fe as int
            } else {
                ge as int
            };
            let le = if gtx {
                ge as int
            } else {
                fe as int
            };
            // larger effective exponent means larger magnitude
            lemma_pow10_pos((he - m) as nat);
            lemma_pow10_pos((le - m) as nat);
            assert(mag_scaled(hd, he, m) >= pow10((hd.len() - 1) as nat) * pow10((he - m) as nat))
                by (nonlinear_arith)
                requires
                    digits_int(hd) >= pow10((hd.len() - 1) as nat),
                    pow10((he - m) as nat) >= 1,
                    mag_scaled(hd, he, m) == digits_int(hd) * pow10((he - m) as nat),
            ;
            lemma_pow10_add((hd.len() - 1) as nat, (he - m) as nat);
            assert(mag_scaled(ld, le, m) < pow10(ld.len() as nat) * pow10((le - m) as nat))
                by (nonlinear_arith)
                requires
                    0 <= digits_int(ld) < pow10(ld.len() as nat),
                    pow10((le - m) as nat) >= 1,
                    mag_scaled(ld, le, m) == digits_int(ld) * pow10((le - m) as nat),
            ;
            lemma_pow10_add(ld.len() as nat, (le - m) as nat);
            assert(hi - 1 >= lo);
            lemma_pow10_mono((ld.len() + le - m) as nat, (hd.len() - 1 + he - m) as nat);
            assert(mag_scaled(hd, he, m) > mag_scaled(ld, le, m));
        }
        if effx > effy {
            Rel::Gt
        } else {
            Rel::Lt
        }
    } else {
        // equal effective exponents: compare digit by digit, the shorter
        // sequence padded with zeroes
        let lxe: usize = fd.len() - nzx;
        let lye: usize = gd.len() - nzy;
        let l: usize = if lxe >= lye {
            lxe
        } else {
            lye
        };
        let ghost px = padded(xs, l as int);
        let ghost py = padded(ys, l as int);
        let ghost c = (ex - l) as nat;
        proof {
            assert(ex == ey);
            assert(ex >= lx && ex >= ly);
            lemma_mag_repr(xs, fe as int, m, l as int);
            lemma_mag_repr(ys, ge as int, m, l as int);
            assert((fe as int) - m + xs.len() - l == c);
            assert((ge as int) - m + ys.len() - l == c);
            lemma_pow10_pos(c);
            assert(digits_ok(px));
            assert(digits_ok(py));
        }
        let diff = lex_first_diff(fd, nzx, gd, nzy, l);
        proof {
            let da = digits_int(px);
            let db = digits_int(py);
            match diff {
                Some((i, gt)) => {
                    if px[i as int] > py[i as int] {
                        lemma_digits_lex(px, py, i as int);
                    } else {
                        lemma_digits_lex(py, px, i as int);
                    }
                },
                None => {
                    assert(px =~= py);
                },
            }
            assert((da > db ==> da * pow10(c) > db * pow10(c)) && (da < db ==> da * pow10(c) < db
                * pow10(c)) && (da == db ==> da * pow10(c) == db * pow10(c))) by (nonlinear_arith)
                requires
                    pow10(c) >= 1,
            ;
        }
        match diff {
            Some((_, gt)) => if gt {
                Rel::Gt
            } else {
                Rel::Lt
            },
            None => Rel::Eq,
        }
    }
}

/// The first position where the zero-padded digit tails differ, and which
/// side holds the larger digit there.
fn lex_first_diff(fd: &Vec<u8>, nzx: usize, gd: &Vec<u8>, nzy: usize, l: usize) -> (r: Option<
    (usize, bool),
>)
    requires
        nzx <= fd@.len(),
        nzy <= gd@.len(),
        fd@.len() - nzx <= l,
        gd@.len() - nzy <= l,
    ensures
        ({
            let px = padded(fd@.skip(nzx as int), l as int);
            let py = padded(gd@.skip(nzy as int), l as int);
            match r {
                Some((i, gt)) => i < l && px[i as int] != py[i as int] && (forall|j: int|
                    0 <= j < i ==> px[j] == py[j]) && gt == (px[i as int] > py[i as int]),
                None => forall|j: int| 0 <= j < l ==> px[j] == py[j],
            }
        }),
{
    let ghost px = padded(fd@.skip(nzx as int), l as int);
    let ghost py = padded(gd@.skip(nzy as int), l as int);
    let lxe: usize = fd.len() - nzx;
    let lye: usize = gd.len() - nzy;
    let mut i: usize = 0;
    while i < l
        invariant
            nzx <= fd@.len(),
            nzy <= gd@.len(),
            fd@.len() <= usize::MAX,
            gd@.len() <= usize::MAX,
            lxe == fd@.len() - nzx,
            lye == gd@.len() - nzy,
            lxe <= l,
            lye <= l,
            px == padded(fd@.skip(nzx as int), l as int),
            py == padded(gd@.skip(nzy as int), l as int),
            px.len() == l,
            py.len() == l,
            0 <= i <= l,
            forall|j: int| 0 <= j < i ==> px[j] == py[j],
        decreases l - i,
    {
        let dx: u8 = if i < lxe {
            fd[nzx + i]
        } else {
            0
        };
        let dy: u8 = if i < lye {
            gd[nzy + i]
        } else {
            0
        };
        proof {
            assert(px[i as int] == dx);
            assert(py[i as int] == dy);
        }
        if dx != dy {
            return Some((i, dx > dy));
        }
        i += 1;
    }
    None
}

/// Compare two parsed finite values.
fn finite_gt(f: &NumFin, g: &NumFin) -> (r: bool)
    requires
        digits_ok(f.digits@),
        digits_ok(g.digits@),
        -40000000000000000000 <= f.exp <= 40000000000000000000,
        -40000000000000000000 <= g.exp <= 40000000000000000000,
    ensures
        r == num_gt(
            NumView::Finite { neg: f.neg, digits: f.digits@, exp: f.exp as int },
            NumView::Finite { neg: g.neg, digits: g.digits@, exp: g.exp as int },
        ),
{
    let ghost m: int = if f.exp <= g.exp {
        f.exp as int
    } else {
        g.exp as int
    };
    let ghost ma = mag_scaled(f.digits@, f.exp as int, m);
    let ghost mb = mag_scaled(g.digits@, g.exp as int, m);
    let nzx = first_nonzero(&f.digits);
    let nzy = first_nonzero(&g.digits);
    let zx = nzx == f.digits.len();
    let zy = nzy == g.digits.len();
    proof {
        if zx {
            lemma_digits_all_zero(f.digits@);
        } else {
            lemma_digits_skip_zeros(f.digits@, nzx as int);
            let xs = f.digits@.skip(nzx as int);
            assert(xs[0] == f.digits@[nzx as int]);
            assert(digits_ok(xs));
            lemma_digits_int_msd(xs);
            lemma_pow10_pos((xs.len() - 1) as nat);
            lemma_pow10_pos((f.exp as int - m) as nat);
            assert(ma >= 1) by (nonlinear_arith)
                requires
                    digits_int(f.digits@) >= 1,
                    pow10((f.exp as int - m) as nat) >= 1,
                    ma == digits_int(f.digits@) * pow10((f.exp as int - m) as nat),
            ;
        }
        if zy {
            lemma_digits_all_zero(g.digits@);
        } else {
            lemma_digits_skip_zeros(g.digits@, nzy as int);
            let ys = g.digits@.skip(nzy as int);
            assert(ys[0] == g.digits@[nzy as int]);
            assert(digits_ok(ys));
            lemma_digits_int_msd(ys);
            lemma_pow10_pos((ys.len() - 1) as nat);
            lemma_pow10_pos((g.exp as int - m) as nat);
            assert(mb >= 1) by (nonlinear_arith)
                requires
                    digits_int(g.digits@) >= 1,
                    pow10((g.exp as int - m) as nat) >= 1,
                    mb == digits_int(g.digits@) * pow10((g.exp as int - m) as nat),
            ;
        }
    }
    proof {
        if zx {
            assert(ma == 0) by (nonlinear_arith)
                requires
                    digits_int(f.digits@) == 0,
                    ma == digits_int(f.digits@) * pow10((f.exp as int - m) as nat),
            ;
        }
        if zy {
            assert(mb == 0) by (nonlinear_arith)
                requires
                    digits_int(g.digits@) == 0,
                    mb == digits_int(g.digits@) * pow10((g.exp as int - m) as nat),
            ;
        }
        assert(signed(f.neg, ma) == if f.neg {
            -ma
        } else {
            ma
        });
        assert(signed(g.neg, mb) == if g.neg {
            -mb
        } else {
            mb
        });
    }
    if zx && zy {
        false
    } else if zx {
        g.neg
    } else if zy {
        !f.neg
    } else if f.neg != g.neg {
        g.neg
    } else {
        let rel = mag_rel(&f.digits, nzx, f.exp, &g.digits, nzy, g.exp);
        if f.neg {
            matches!(rel, Rel::Lt)
        } else {
            matches!(rel, Rel::Gt)
        }
    }
}

/// Whether `x@ > y@` under the exact numeric order.
pub fn num_gt_exec(x: &Num, y: &Num) -> (r: bool)
    requires
        x matches Num::Finite(f) ==> digits_ok(f.digits@) && -40000000000000000000 <= f.exp
            <= 40000000000000000000,
        y matches Num::Finite(f) ==> digits_ok(f.digits@) && -40000000000000000000 <= f.exp
            <= 40000000000000000000,
    ensures
        r == num_gt(x@, y@),
{
    match (x, y) {
        (Num::Nan, _) => false,
        (_, Num::Nan) => false,
        (Num::Inf(an), Num::Inf(bn)) => !*an && *bn,
        (Num::Inf(an), Num::Finite(_)) => !*an,
        (Num::Finite(_), Num::Inf(bn)) => *bn,
        (Num::Finite(f), Num::Finite(g)) => finite_gt(f, g),
    }
}

/// Whether the numeric value of `a` exceeds that of `b`; false when either
/// string is not numeric.
pub fn num_gt_str(a: &str, b: &str) -> (r: bool)
    ensures
        r == num_gt_spec(a@, b@),
{
    let pa = parse_number(a);
    let pb = parse_number(b);
    match (pa, pb) {
        (Some(x), Some(y)) => num_gt_exec(&x, &y),
        _ => false,
    }
}

} // verus!
