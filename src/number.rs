use vstd::prelude::*;
use vstd::string::StringSliceAdditionalSpecFns;
use crate::text::push_char;

verus! {

/// Longest number token that the parser copies.
pub const MAX_NUMBER_TOKEN: usize = 63;

/// Largest magnitude of the exponent part of a number token.
pub const MAX_TOKEN_EXPONENT: u64 = 999;

/// A JSON number held exactly: `(-1)^negative * digits * 10^exponent`,
/// where `digits` are the decimal digits of the significand, most
/// significant first.
#[derive(Debug)]
pub struct JsonNumber {
    negative: bool,
    digits: Vec<u8>,
    exponent: i64,
}

/// The mathematical model of a number.
pub struct NumberView {
    pub negative: bool,
    pub digits: Seq<u8>,
    pub exponent: int,
}

pub open spec fn digits_ok(d: Seq<u8>) -> bool {
    forall|i: int| 0 <= i < d.len() ==> #[trigger] d[i] < 10
}

pub open spec fn zeros(n: nat) -> Seq<u8> {
    Seq::new(n, |i: int| 0u8)
}

/// Value of a digit sequence read in base ten.
pub open spec fn digits_value(d: Seq<u8>) -> nat
    decreases d.len(),
{
    if d.len() == 0 {
        0
    } else {
        digits_value(d.drop_last()) * 10 + d.last() as nat
    }
}

/// Digits before the decimal point, once the exponent is applied.
pub open spec fn int_part(n: NumberView) -> Seq<u8> {
    let d = n.digits;
    if n.exponent >= 0 {
        d + zeros(n.exponent as nat)
    } else if -n.exponent <= d.len() {
        d.subrange(0, d.len() + n.exponent)
    } else {
        Seq::empty()
    }
}

/// Digits after the decimal point, once the exponent is applied.
pub open spec fn frac_part(n: NumberView) -> Seq<u8> {
    let d = n.digits;
    if n.exponent >= 0 {
        Seq::empty()
    } else if -n.exponent <= d.len() {
        d.subrange(d.len() + n.exponent, d.len() as int)
    } else {
        zeros((-n.exponent - d.len()) as nat) + d
    }
}

/// Index of the first non-zero digit of `d` at or after `i`.
pub open spec fn skip_zeros(d: Seq<u8>, i: int) -> int
    decreases d.len() - i,
{
    if 0 <= i < d.len() && d[i] == 0 {
        skip_zeros(d, i + 1)
    } else {
        i
    }
}

/// Length of `d[..j]` once its trailing zeros are removed.
pub open spec fn trim_zeros(d: Seq<u8>, j: int) -> int
    decreases j,
{
    if 0 < j <= d.len() && d[j - 1] == 0 {
        trim_zeros(d, j - 1)
    } else {
        j
    }
}

pub open spec fn digit_chars(d: Seq<u8>) -> Seq<char> {
    Seq::new(d.len(), |i: int| ((d[i] + 48) as u8) as char)
}

/// The text of a number: its integer part without leading zeros (`0` when
/// there is none), then, only where the fraction is not zero, a point and the
/// fraction without trailing zeros.
pub open spec fn render_number(n: NumberView) -> Seq<char> {
    let ip = int_part(n);
    let fp = frac_part(n);
    let a = skip_zeros(ip, 0);
    let b = trim_zeros(fp, fp.len() as int);
    let sign = if n.negative {
        seq!['-']
    } else {
        Seq::empty()
    };
    let whole = if a >= ip.len() {
        seq!['0']
    } else {
        digit_chars(ip.subrange(a, ip.len() as int))
    };
    let frac = if b <= 0 {
        Seq::empty()
    } else {
        seq!['.'] + digit_chars(fp.subrange(0, b))
    };
    sign + whole + frac
}

/// The number truncated towards zero and saturated to the range of `i32`.
pub open spec fn saturated_int(n: NumberView) -> i32 {
    let v = digits_value(int_part(n));
    if !n.negative {
        if v >= 0x7fff_ffff {
            0x7fff_ffff
        } else {
            v as i32
        }
    } else {
        if v >= 0x8000_0000 {
            i32::MIN
        } else {
            (-v) as i32
        }
    }
}

pub open spec fn is_digit(b: u8) -> bool {
    48 <= b <= 57
}

/// Index of the first byte at or after `i` that is not a digit.
pub open spec fn digit_run(t: Seq<u8>, i: int) -> int
    decreases t.len() - i,
{
    if 0 <= i < t.len() && is_digit(t[i]) {
        digit_run(t, i + 1)
    } else {
        i
    }
}

pub open spec fn digit_values(t: Seq<u8>) -> Seq<u8> {
    Seq::new(t.len(), |i: int| (t[i] - 48) as u8)
}

/// Length of the optional sign that opens a token.
pub open spec fn sign_len(t: Seq<u8>) -> int {
    if t.len() > 0 && (t[0] == 45u8 || t[0] == 43u8) {
        1
    } else {
        0
    }
}

/// End of the digits before the point.
pub open spec fn int_end(t: Seq<u8>) -> int {
    digit_run(t, sign_len(t))
}

pub open spec fn has_point(t: Seq<u8>) -> bool {
    int_end(t) < t.len() && t[int_end(t)] == 46u8
}

/// Start of the digits after the point.
pub open spec fn frac_start(t: Seq<u8>) -> int {
    if has_point(t) {
        int_end(t) + 1
    } else {
        int_end(t)
    }
}

/// End of the digits after the point.
pub open spec fn frac_end(t: Seq<u8>) -> int {
    if has_point(t) {
        digit_run(t, frac_start(t))
    } else {
        int_end(t)
    }
}

/// The digits of the significand, before and after the point.
pub open spec fn mantissa(t: Seq<u8>) -> Seq<u8> {
    digit_values(t.subrange(sign_len(t), int_end(t)) + t.subrange(frac_start(t), frac_end(t)))
}

/// Start of the digits of the exponent, after `e`/`E` at `f1` and an optional sign.
pub open spec fn exp_digits_start(t: Seq<u8>, f1: int) -> int {
    if f1 + 1 < t.len() && (t[f1 + 1] == 45u8 || t[f1 + 1] == 43u8) {
        f1 + 2
    } else {
        f1 + 1
    }
}

/// The value of the exponent part that starts with `e`/`E` at `f1`, where it is well formed.
pub open spec fn exponent_part(t: Seq<u8>, f1: int) -> Option<int> {
    let xneg = f1 + 1 < t.len() && t[f1 + 1] == 45u8;
    let xs = exp_digits_start(t, f1);
    let x1 = digit_run(t, xs);
    let ev = digits_value(digit_values(t.subrange(xs, x1)));
    if x1 == xs || x1 != t.len() || ev > MAX_TOKEN_EXPONENT {
        None
    } else if xneg {
        Some(-ev)
    } else {
        Some(ev as int)
    }
}

/// The number that a token denotes, in the grammar of decimal floating-point
/// literals: an optional sign, digits with an optional point (at least one
/// digit in all), then an optional exponent `e`/`E`, optional sign and at
/// least one digit, whose value is at most `MAX_TOKEN_EXPONENT`.
pub open spec fn token_number(t: Seq<u8>) -> Option<NumberView> {
    let neg = t.len() > 0 && t[0] == 45u8;
    let f1 = frac_end(t);
    let scale = f1 - frac_start(t);
    if mantissa(t).len() == 0 {
        None
    } else if f1 == t.len() {
        Some(NumberView { negative: neg, digits: mantissa(t), exponent: -scale })
    } else if t[f1] == 101u8 || t[f1] == 69u8 {
        match exponent_part(t, f1) {
            Some(e) => Some(NumberView { negative: neg, digits: mantissa(t), exponent: e - scale }),
            None => None,
        }
    } else {
        None
    }
}

/// The integer `v` as a number.
pub open spec fn int_number(v: int) -> NumberView {
    NumberView {
        negative: v < 0,
        digits: decimal((if v < 0 { -v } else { v }) as nat),
        exponent: 0,
    }
}

/// Decimal digits of `x`, most significant first.
pub open spec fn decimal(x: nat) -> Seq<u8>
    decreases x,
{
    if x < 10 {
        seq![x as u8]
    } else {
        decimal(x / 10).push((x % 10) as u8)
    }
}

proof fn lemma_decimal(x: nat)
    ensures
        digits_value(decimal(x)) == x,
        digits_ok(decimal(x)),
        decimal(x).len() >= 1,
    decreases x,
{
    if x >= 10 {
        lemma_decimal(x / 10);
        let d = decimal(x / 10);
        assert(decimal(x).drop_last() =~= d);
        assert(decimal(x).last() == (x % 10) as u8);
        assert((x / 10) * 10 + x % 10 == x) by (nonlinear_arith);
        assert(digits_value(decimal(x)) == digits_value(d) * 10 + (x % 10));
        assert(digits_ok(decimal(x))) by {
            assert forall|i: int| 0 <= i < decimal(x).len() implies #[trigger] decimal(x)[i] < 10 by {
                if i < d.len() {
                    assert(decimal(x)[i] == d[i]);
                }
            }
        }
    } else {
        assert(seq![x as u8].drop_last() =~= Seq::<u8>::empty());
        assert(digits_value(Seq::<u8>::empty()) == 0);
        assert(digits_value(seq![x as u8]) == x);
    }
}

pub open spec fn pow10(k: nat) -> nat
    decreases k,
{
    if k == 0 {
        1
    } else {
        10 * pow10((k - 1) as nat)
    }
}

proof fn lemma_decimal_len(x: nat, k: nat)
    requires
        x < pow10(k),
        k >= 1,
    ensures
        decimal(x).len() <= k,
    decreases x,
{
    if x >= 10 {
        let b1 = pow10((k - 1) as nat);
        assert(x / 10 < b1) by (nonlinear_arith)
            requires
                x < 10 * b1,
        ;
        if k > 1 {
            lemma_decimal_len(x / 10, (k - 1) as nat);
        }
    }
}

proof fn lemma_sat_step(x: nat, d: nat, cap: nat)
    requires
        cap > 0,
    ensures
        (if x * 10 + d >= cap { cap } else { x * 10 + d }) == (if (if x >= cap { cap } else { x })
            * 10 + d >= cap { cap } else { (if x >= cap { cap } else { x }) * 10 + d }),
{
    if x >= cap {
        assert(x * 10 + d >= cap) by (nonlinear_arith)
            requires
                x >= cap,
        ;
        assert(cap * 10 + d >= cap) by (nonlinear_arith)
            requires
                cap > 0,
        ;
    }
}

/// `min(digits_value(d), cap)`, computed without overflow.
fn saturated_value(d: &Vec<u8>, cap: u64) -> (r: u64)
    requires
        digits_ok(d@),
        0 < cap <= 0x1_0000_0000,
    ensures
        r == if digits_value(d@) >= cap {
            cap as nat
        } else {
            digits_value(d@)
        },
{
    let mut acc: u64 = 0;
    let mut i: usize = 0;
    while i < d.len()
        invariant
            i <= d.len(),
            digits_ok(d@),
            0 < cap <= 0x1_0000_0000,
            acc == if digits_value(d@.subrange(0, i as int)) >= cap {
                cap as nat
            } else {
                digits_value(d@.subrange(0, i as int))
            },
        decreases d.len() - i,
    {
        proof {
            let p = d@.subrange(0, i as int + 1);
            assert(p.drop_last() =~= d@.subrange(0, i as int));
            lemma_sat_step(digits_value(d@.subrange(0, i as int)), d@[i as int] as nat, cap as nat);
        }
        let digit = d[i];
        let next = acc * 10 + digit as u64;
        acc = if next >= cap {
            cap
        } else {
            next
        };
        i = i + 1;
    }
    assert(d@.subrange(0, d@.len() as int) =~= d@);
    acc
}

fn push_decimal(x: u64, out: &mut Vec<u8>)
    ensures
        final(out)@ == old(out)@ + decimal(x as nat),
    decreases x,
{
    if x >= 10 {
        push_decimal(x / 10, out);
    }
    out.push((x % 10) as u8);
    assert(final(out)@ =~= old(out)@ + decimal(x as nat));
}

impl View for JsonNumber {
    type V = NumberView;

    closed spec fn view(&self) -> NumberView {
        NumberView { negative: self.negative, digits: self.digits@, exponent: self.exponent as int }
    }
}

impl JsonNumber {
    #[verifier::type_invariant]
    spec fn inv(&self) -> bool {
        &&& digits_ok(self.digits@)
        &&& self.digits@.len() <= 64
        &&& -1100 <= self.exponent <= 1000
    }

    /// What every number satisfies.
    pub open spec fn bounded(v: NumberView) -> bool {
        &&& digits_ok(v.digits)
        &&& v.digits.len() <= 64
        &&& -1100 <= v.exponent <= 1000
    }

    /// The number zero.
    pub fn zero() -> (r: JsonNumber)
        ensures
            r@ == (NumberView { negative: false, digits: Seq::empty(), exponent: 0 }),
    {
        JsonNumber { negative: false, digits: Vec::new(), exponent: 0 }
    }

    /// The integer `v`.
    pub fn from_i64(v: i64) -> (r: JsonNumber)
        ensures
            r@ == int_number(v as int),
            r@.negative == (v < 0),
            r@.exponent == 0,
            r@.digits == decimal((if v < 0 { -(v as int) } else { v as int }) as nat),
            digits_value(r@.digits) == if v < 0 { -(v as int) } else { v as int },
    {
        let mag: u64 = if v < 0 {
            (-(v as i128)) as u64
        } else {
            v as u64
        };
        let mut digits: Vec<u8> = Vec::new();
        push_decimal(mag, &mut digits);
        proof {
            lemma_decimal(mag as nat);
            assert(digits@ =~= decimal(mag as nat));
            assert(pow10(20) == 100_000_000_000_000_000_000) by {
                reveal_with_fuel(pow10, 21);
            }
            lemma_decimal_len(mag as nat, 20);
        }
        JsonNumber { negative: v < 0, digits, exponent: 0 }
    }

    /// The integer `v`, as a number.
    pub fn from_i32(v: i32) -> (r: JsonNumber)
        ensures
            r@ == int_number(v as int),
            r@.negative == (v < 0),
            r@.exponent == 0,
            digits_value(r@.digits) == if v < 0 { -(v as int) } else { v as int },
            saturated_int(r@) == v,
    {
        let r = JsonNumber::from_i64(v as i64);
        proof {
            assert(int_part(r@) =~= r@.digits);
        }
        r
    }

    /// A copy of this number.
    pub fn duplicate(&self) -> (r: JsonNumber)
        ensures
            r@ == self@,
    {
        proof {
            use_type_invariant(self);
        }
        let mut digits: Vec<u8> = Vec::new();
        let mut i: usize = 0;
        while i < self.digits.len()
            invariant
                i <= self.digits.len(),
                digits@ == self.digits@.subrange(0, i as int),
            decreases self.digits.len() - i,
        {
            digits.push(self.digits[i]);
            i = i + 1;
            assert(digits@ =~= self.digits@.subrange(0, i as int));
        }
        assert(digits@ =~= self.digits@);
        JsonNumber { negative: self.negative, digits, exponent: self.exponent }
    }

    /// The number that `token` denotes, where the token is at most
    /// `MAX_NUMBER_TOKEN` bytes long; `None` where it is no number.
    pub fn from_token(token: &[u8]) -> (r: Option<JsonNumber>)
        requires
            token@.len() <= MAX_NUMBER_TOKEN,
        ensures
            r matches Some(n) ==> token_number(token@) == Some(n@),
            r is None ==> token_number(token@) is None,
    {
        let t = token;
        let len = t.len();
        let s0: usize = if len > 0 && (t[0] == 45u8 || t[0] == 43u8) {
            1
        } else {
            0
        };
        assert(s0 == sign_len(t@));
        let neg = len > 0 && t[0] == 45u8;
        let i1 = skip_digits(t, s0);
        assert(i1 == int_end(t@));
        let has_dot = i1 < len && t[i1] == 46u8;
        assert(has_dot == has_point(t@));
        let f0 = if has_dot {
            i1 + 1
        } else {
            i1
        };
        assert(f0 == frac_start(t@));
        let f1 = if has_dot {
            skip_digits(t, f0)
        } else {
            i1
        };
        assert(f1 == frac_end(t@));
        let mut digits: Vec<u8> = Vec::new();
        append_digit_values(t, s0, i1, &mut digits);
        append_digit_values(t, f0, f1, &mut digits);
        proof {
            assert(digits@ =~= mantissa(t@));
        }
        if digits.len() == 0 {
            return None;
        }
        let frac_len = (f1 - f0) as i64;
        if f1 == len {
            return Some(JsonNumber { negative: neg, digits, exponent: -frac_len });
        }
        if !(t[f1] == 101u8 || t[f1] == 69u8) {
            return None;
        }
        match exponent_value(t, f1) {
            Some(e) => Some(JsonNumber { negative: neg, digits, exponent: e - frac_len }),
            None => None,
        }
    }

    /// The number that `s` spells, in the grammar of `token_number`, where
    /// it is at most `MAX_NUMBER_TOKEN` bytes long; `None` otherwise.
    pub fn from_text(s: &str) -> (r: Option<JsonNumber>)
        ensures
            s.spec_bytes().len() > MAX_NUMBER_TOKEN ==> r is None,
            s.spec_bytes().len() <= MAX_NUMBER_TOKEN ==> (r matches Some(n) ==> token_number(
                s.spec_bytes(),
            ) == Some(n@)),
            s.spec_bytes().len() <= MAX_NUMBER_TOKEN ==> (r is None ==> token_number(
                s.spec_bytes(),
            ) is None),
    {
        let bytes = s.as_bytes();
        if bytes.len() > MAX_NUMBER_TOKEN {
            return None;
        }
        JsonNumber::from_token(bytes)
    }

    /// Writes the text of this number (see `render_number`) at the end of `out`.
    pub fn render(&self, out: &mut String)
        ensures
            final(out)@ == old(out)@ + render_number(self@),
    {
        proof {
            use_type_invariant(self);
        }
        let (ip, fp) = self.parts();
        let a = first_nonzero(&ip);
        let b = trimmed_len(&fp);
        let ghost start = out@;
        if self.negative {
            push_char(out, '-');
        }
        let ghost after_sign = out@;
        if a >= ip.len() {
            push_char(out, '0');
        } else {
            push_digit_chars(&ip, a, ip.len(), out);
        }
        if b > 0 {
            push_char(out, '.');
            push_digit_chars(&fp, 0, b, out);
        }
        proof {
            let n = self@;
            let sign = if n.negative {
                seq!['-']
            } else {
                Seq::<char>::empty()
            };
            assert(after_sign =~= start + sign);
            assert(out@ =~= old(out)@ + render_number(self@));
        }
    }

    /// Digits before and after the decimal point.
    fn parts(&self) -> (r: (Vec<u8>, Vec<u8>))
        requires
            Self::bounded(self@),
        ensures
            r.0@ == int_part(self@),
            r.1@ == frac_part(self@),
            r.0@.len() <= 1100,
            r.1@.len() <= 1200,
            digits_ok(r.0@),
            digits_ok(r.1@),
    {
        let d = &self.digits;
        let len = d.len();
        let mut ip: Vec<u8> = Vec::new();
        let mut fp: Vec<u8> = Vec::new();
        if self.exponent >= 0 {
            copy_range(d, 0, len, &mut ip);
            push_zeros(self.exponent as usize, &mut ip);
            proof {
                assert(ip@ =~= int_part(self@));
                assert(fp@ =~= frac_part(self@));
            }
        } else if (-self.exponent) as usize <= len {
            let cut = len - (-self.exponent) as usize;
            copy_range(d, 0, cut, &mut ip);
            copy_range(d, cut, len, &mut fp);
            proof {
                assert(ip@ =~= int_part(self@));
                assert(fp@ =~= frac_part(self@));
            }
        } else {
            push_zeros((-self.exponent) as usize - len, &mut fp);
            copy_range(d, 0, len, &mut fp);
            proof {
                assert(ip@ =~= int_part(self@));
                assert(fp@ =~= frac_part(self@));
            }
        }
        (ip, fp)
    }

    /// The number truncated towards zero and saturated to the range of `i32`.
    pub fn to_saturated_i32(&self) -> (r: i32)
        ensures
            r == saturated_int(self@),
    {
        proof {
            use_type_invariant(self);
        }
        let (ip, _fp) = self.parts();
        let v = saturated_value(&ip, 0x8000_0000);
        if !self.negative {
            if v >= 0x7fff_ffff {
                0x7fff_ffff
            } else {
                v as i32
            }
        } else {
            if v >= 0x8000_0000 {
                -0x8000_0000
            } else {
                -(v as i32)
            }
        }
    }
}

fn exponent_value(t: &[u8], f1: usize) -> (r: Option<i64>)
    requires
        f1 < t@.len() <= MAX_NUMBER_TOKEN,
    ensures
        r matches Some(e) ==> exponent_part(t@, f1 as int) == Some(e as int),
        r is None ==> exponent_part(t@, f1 as int) is None,
        r matches Some(e) ==> -999 <= e <= 999,
{
    let len = t.len();
    let x0 = f1 + 1;
    let xneg = x0 < len && t[x0] == 45u8;
    let xs = if x0 < len && (t[x0] == 45u8 || t[x0] == 43u8) {
        x0 + 1
    } else {
        x0
    };
    assert(xs == exp_digits_start(t@, f1 as int));
    let x1 = skip_digits(t, xs);
    if x1 == xs || x1 != len {
        return None;
    }
    let mut exp_digits: Vec<u8> = Vec::new();
    append_digit_values(t, xs, x1, &mut exp_digits);
    proof {
        assert(exp_digits@ =~= digit_values(t@.subrange(xs as int, x1 as int)));
    }
    let ev = saturated_value(&exp_digits, 1000);
    if ev > MAX_TOKEN_EXPONENT {
        return None;
    }
    if xneg {
        Some(-(ev as i64))
    } else {
        Some(ev as i64)
    }
}

fn skip_digits(t: &[u8], i: usize) -> (r: usize)
    requires
        i <= t@.len(),
    ensures
        r == digit_run(t@, i as int),
        i <= r <= t@.len(),
        forall|k: int| i <= k < r ==> is_digit(#[trigger] t@[k]),
{
    let mut j = i;
    while j < t.len() && 48u8 <= t[j] && t[j] <= 57u8
        invariant
            i <= j <= t@.len(),
            digit_run(t@, i as int) == digit_run(t@, j as int),
            forall|k: int| i <= k < j ==> is_digit(#[trigger] t@[k]),
        decreases t@.len() - j,
    {
        j = j + 1;
    }
    j
}

fn append_digit_values(t: &[u8], from: usize, to: usize, out: &mut Vec<u8>)
    requires
        from <= to <= t@.len(),
        forall|k: int| from <= k < to ==> is_digit(#[trigger] t@[k]),
        digits_ok(old(out)@),
    ensures
        final(out)@ == old(out)@ + digit_values(t@.subrange(from as int, to as int)),
        digits_ok(final(out)@),
{
    let mut i = from;
    while i < to
        invariant
            from <= i <= to <= t@.len(),
            forall|k: int| from <= k < to ==> is_digit(#[trigger] t@[k]),
            out@ == old(out)@ + digit_values(t@.subrange(from as int, i as int)),
            digits_ok(out@),
        decreases to - i,
    {
        assert(is_digit(t@[i as int]));
        out.push(t[i] - 48);
        i = i + 1;
        assert(out@ =~= old(out)@ + digit_values(t@.subrange(from as int, i as int)));
    }
}

fn copy_range(d: &Vec<u8>, from: usize, to: usize, out: &mut Vec<u8>)
    requires
        from <= to <= d@.len(),
    ensures
        final(out)@ == old(out)@ + d@.subrange(from as int, to as int),
{
    let mut i = from;
    while i < to
        invariant
            from <= i <= to <= d@.len(),
            out@ == old(out)@ + d@.subrange(from as int, i as int),
        decreases to - i,
    {
        out.push(d[i]);
        i = i + 1;
        assert(out@ =~= old(out)@ + d@.subrange(from as int, i as int));
    }
}

fn push_zeros(n: usize, out: &mut Vec<u8>)
    ensures
        final(out)@ == old(out)@ + zeros(n as nat),
{
    let mut i: usize = 0;
    while i < n
        invariant
            i <= n,
            out@ == old(out)@ + zeros(i as nat),
        decreases n - i,
    {
        out.push(0u8);
        i = i + 1;
        assert(out@ =~= old(out)@ + zeros(i as nat));
    }
}

fn first_nonzero(d: &Vec<u8>) -> (r: usize)
    ensures
        r == skip_zeros(d@, 0),
        r <= d@.len(),
{
    let mut i: usize = 0;
    while i < d.len() && d[i] == 0
        invariant
            i <= d@.len(),
            skip_zeros(d@, 0) == skip_zeros(d@, i as int),
        decreases d@.len() - i,
    {
        i = i + 1;
    }
    i
}

fn trimmed_len(d: &Vec<u8>) -> (r: usize)
    ensures
        r == trim_zeros(d@, d@.len() as int),
        r <= d@.len(),
{
    let mut j: usize = d.len();
    while j > 0 && d[j - 1] == 0
        invariant
            j <= d@.len(),
            trim_zeros(d@, d@.len() as int) == trim_zeros(d@, j as int),
        decreases j,
    {
        j = j - 1;
    }
    j
}

fn push_digit_chars(d: &Vec<u8>, from: usize, to: usize, out: &mut String)
    requires
        from <= to <= d@.len(),
        digits_ok(d@),
    ensures
        final(out)@ == old(out)@ + digit_chars(d@.subrange(from as int, to as int)),
{
    let mut i = from;
    while i < to
        invariant
            from <= i <= to <= d@.len(),
            digits_ok(d@),
            out@ == old(out)@ + digit_chars(d@.subrange(from as int, i as int)),
        decreases to - i,
    {
        assert(d@[i as int] < 10);
        push_char(out, ((d[i] + 48) as u8) as char);
        i = i + 1;
        assert(out@ =~= old(out)@ + digit_chars(d@.subrange(from as int, i as int)));
    }
}

} // verus!
