use vstd::prelude::*;
use crate::error::{decode_error, syntax_error, DecodeProblem, Expected, JsonError};
use crate::scan::{digits_end, is_digit, lemma_digits_end, skip_digits};
use crate::value::{canonical_digits, JsonNumber, JsonTree};

verus! {

/// The smallest decimal point position of a nonzero number: about the
/// smallest magnitude that a double can hold (`1e-324`). Smaller numbers
/// read as zero.
pub const MIN_POINT: i64 = -323;

/// The largest decimal point position of a number: about the largest
/// magnitude that a double can hold (`1e309`).
pub const MAX_POINT: i64 = 309;

/// Where the parts of a numeral lie: `int_start..int_end` the integer digits,
/// `frac_start..frac_end` the fraction digits, `exp_start..exp_end` the
/// exponent digits (each range empty where the part is absent), `end` the
/// position just past the numeral.
pub struct NumeralSpan {
    pub negative: bool,
    pub int_start: int,
    pub int_end: int,
    pub frac_start: int,
    pub frac_end: int,
    pub exp_negative: bool,
    pub exp_start: int,
    pub exp_end: int,
}

/// The layout of the numeral at `s[p..]`: `-`?, then `0` or a nonzero digit
/// followed by digits, then optionally `.` and one or more digits, then
/// optionally `e` or `E`, a sign, and one or more digits.
pub open spec fn numeral_at(s: Seq<char>, p: int) -> Result<NumeralSpan, JsonError> {
    let negative = 0 <= p < s.len() && s[p] == '-';
    let a = if negative { p + 1 } else { p };
    if !(0 <= a < s.len() && is_digit(s[a])) {
        Err(syntax_error(a, Expected::Digit))
    } else {
        let b = if s[a] == '0' { a + 1 } else { digits_end(s, a) };
        let has_frac = b < s.len() && s[b] == '.';
        if has_frac && !(b + 1 < s.len() && is_digit(s[b + 1])) {
            Err(syntax_error(b + 1, Expected::Digit))
        } else {
            let fs = if has_frac { b + 1 } else { b };
            let fe = if has_frac { digits_end(s, b + 1) } else { b };
            if fe < s.len() && (s[fe] == 'e' || s[fe] == 'E') {
                let signed = fe + 1 < s.len() && (s[fe + 1] == '+' || s[fe + 1] == '-');
                let x = if signed { fe + 2 } else { fe + 1 };
                if !(x < s.len() && is_digit(s[x])) {
                    Err(syntax_error(x, Expected::Digit))
                } else {
                    Ok(
                        NumeralSpan {
                            negative,
                            int_start: a,
                            int_end: b,
                            frac_start: fs,
                            frac_end: fe,
                            exp_negative: signed && s[fe + 1] == '-',
                            exp_start: x,
                            exp_end: digits_end(s, x),
                        },
                    )
                }
            } else {
                Ok(
                    NumeralSpan {
                        negative,
                        int_start: a,
                        int_end: b,
                        frac_start: fs,
                        frac_end: fe,
                        exp_negative: false,
                        exp_start: fe,
                        exp_end: fe,
                    },
                )
            }
        }
    }
}

pub open spec fn digit_value(c: char) -> u8 {
    (c as int - 48) as u8
}

pub open spec fn digit_values(s: Seq<char>) -> Seq<u8> {
    Seq::new(s.len(), |i: int| digit_value(s[i]))
}

/// The integer that a sequence of decimal digits writes.
pub open spec fn decimal_value(d: Seq<u8>) -> int
    decreases d.len(),
{
    if d.len() == 0 {
        0
    } else {
        decimal_value(d.subrange(0, d.len() - 1)) * 10 + d[d.len() - 1]
    }
}

/// How many zeros open `d`.
pub open spec fn lead_zeros(d: Seq<u8>) -> int
    decreases d.len(),
{
    if d.len() > 0 && d[0] == 0 {
        1 + lead_zeros(d.subrange(1, d.len() as int))
    } else {
        0
    }
}

/// `d` without the zeros that close it.
pub open spec fn strip_trailing(d: Seq<u8>) -> Seq<u8>
    decreases d.len(),
{
    if d.len() > 0 && d[d.len() - 1] == 0 {
        strip_trailing(d.subrange(0, d.len() - 1))
    } else {
        d
    }
}

/// The significant digits of a numeral: its integer digits, then its
/// fraction digits.
pub open spec fn numeral_digits(s: Seq<char>, n: NumeralSpan) -> Seq<u8> {
    digit_values(s.subrange(n.int_start, n.int_end)) + digit_values(
        s.subrange(n.frac_start, n.frac_end),
    )
}

/// The decimal point position of a numeral whose digits are not all zero.
pub open spec fn numeral_point(s: Seq<char>, n: NumeralSpan) -> int {
    let e = decimal_value(digit_values(s.subrange(n.exp_start, n.exp_end)));
    (if n.exp_negative { -e } else { e }) + (n.int_end - n.int_start) - lead_zeros(
        numeral_digits(s, n),
    )
}

/// The number that a numeral writes, with its digits stripped of zeros at
/// both ends. A number too small for a double becomes a zero of its sign,
/// as a double would; one too large is out of range, a decode problem that
/// reads as zero where `strict` is off.
pub open spec fn numeral_value(s: Seq<char>, p: int, n: NumeralSpan, strict: bool) -> Result<
    JsonTree,
    JsonError,
> {
    let d = numeral_digits(s, n);
    let k = lead_zeros(d);
    if k == d.len() {
        Ok(JsonTree::Num(n.negative, Seq::empty(), 0))
    } else {
        let point = numeral_point(s, n);
        if point < MIN_POINT {
            Ok(JsonTree::Num(n.negative, Seq::empty(), 0))
        } else if point <= MAX_POINT {
            Ok(JsonTree::Num(n.negative, strip_trailing(d.subrange(k, d.len() as int)), point))
        } else if strict {
            Err(decode_error(p, DecodeProblem::NumberOutOfRange))
        } else {
            Ok(JsonTree::Num(n.negative, Seq::empty(), 0))
        }
    }
}

/// The number at `s[p..]` and the position just past it.
pub open spec fn number_at(s: Seq<char>, p: int, strict: bool) -> Result<(JsonTree, int), JsonError> {
    match numeral_at(s, p) {
        Err(e) => Err(e),
        Ok(n) => match numeral_value(s, p, n, strict) {
            Err(e) => Err(e),
            Ok(t) => Ok((t, n.exp_end)),
        },
    }
}

pub proof fn lemma_lead_zeros(d: Seq<u8>, i: int)
    requires
        0 <= i <= d.len(),
        forall|j: int| 0 <= j < i ==> d[j] == 0,
        i == d.len() || d[i] != 0,
    ensures
        lead_zeros(d) == i,
    decreases i,
{
    if i > 0 {
        let t = d.subrange(1, d.len() as int);
        assert forall|j: int| 0 <= j < i - 1 implies t[j] == 0 by {
            assert(t[j] == d[j + 1]);
        }
        if i < d.len() {
            assert(t[i - 1] == d[i]);
        }
        lemma_lead_zeros(t, i - 1);
    }
}

pub proof fn lemma_strip_trailing(d: Seq<u8>, m: int)
    requires
        0 <= m <= d.len(),
        forall|j: int| m <= j < d.len() ==> d[j] == 0,
        m == 0 || d[m - 1] != 0,
    ensures
        strip_trailing(d) == d.subrange(0, m),
    decreases d.len(),
{
    if d.len() > m {
        let t = d.subrange(0, d.len() - 1);
        assert forall|j: int| m <= j < t.len() implies t[j] == 0 by {
            assert(t[j] == d[j]);
        }
        if m > 0 {
            assert(t[m - 1] == d[m - 1]);
        }
        lemma_strip_trailing(t, m);
        assert(t.subrange(0, m) =~= d.subrange(0, m));
    } else {
        assert(d.subrange(0, m) =~= d);
    }
}

fn digit_of(c: char) -> (r: u8)
    requires
        is_digit(c),
    ensures
        r == digit_value(c),
        r < 10,
{
    if c == '0' { 0 }
    else if c == '1' { 1 }
    else if c == '2' { 2 }
    else if c == '3' { 3 }
    else if c == '4' { 4 }
    else if c == '5' { 5 }
    else if c == '6' { 6 }
    else if c == '7' { 7 }
    else if c == '8' { 8 }
    else { 9 }
}

/// Appends the values of the digits `s[lo..hi]`.
fn push_digit_values(d: &mut Vec<u8>, s: &Vec<char>, lo: usize, hi: usize)
    requires
        lo <= hi <= s@.len(),
        forall|k: int| lo <= k < hi ==> is_digit(#[trigger] s@[k]),
    ensures
        final(d)@ == old(d)@ + digit_values(s@.subrange(lo as int, hi as int)),
        forall|k: int| 0 <= k < final(d)@.len() ==> (#[trigger] final(d)@[k] < 10 || k < old(d)@.len()),
{
    let mut i: usize = lo;
    while i < hi
        invariant
            lo <= i <= hi <= s@.len(),
            forall|k: int| lo <= k < hi ==> is_digit(#[trigger] s@[k]),
            d@ == old(d)@ + digit_values(s@.subrange(lo as int, i as int)),
            forall|k: int| 0 <= k < d@.len() ==> (#[trigger] d@[k] < 10 || k < old(d)@.len()),
        decreases hi - i,
    {
        let v = digit_of(s[i]);
        d.push(v);
        i += 1;
        assert(d@ =~= old(d)@ + digit_values(s@.subrange(lo as int, i as int)));
    }
}

/// Past this bound an exponent puts every nonzero number out of range,
/// whatever the length of the text.
const EXP_CAP: u128 = 1_000_000_000_000_000_000_000_000_000_000;

/// The positions of a numeral's parts, as in `NumeralSpan`.
struct NumeralParts {
    negative: bool,
    int_start: usize,
    int_end: usize,
    frac_start: usize,
    frac_end: usize,
    exp_negative: bool,
    exp_start: usize,
    exp_end: usize,
}

impl NumeralParts {
    spec fn view(&self) -> NumeralSpan {
        NumeralSpan {
            negative: self.negative,
            int_start: self.int_start as int,
            int_end: self.int_end as int,
            frac_start: self.frac_start as int,
            frac_end: self.frac_end as int,
            exp_negative: self.exp_negative,
            exp_start: self.exp_start as int,
            exp_end: self.exp_end as int,
        }
    }
}

fn lex_numeral(s: &Vec<char>, p: usize) -> (r: Result<NumeralParts, JsonError>)
    requires
        p < s.len(),
    ensures
        match r {
            Ok(n) => numeral_at(s@, p as int) == Ok::<NumeralSpan, JsonError>(n.view()),
            Err(x) => numeral_at(s@, p as int) == Err::<NumeralSpan, JsonError>(x),
        },
        r is Ok ==> {
            let n = r->Ok_0;
            &&& p <= n.int_start < n.int_end <= n.frac_start <= n.frac_end <= n.exp_start
                <= n.exp_end <= s@.len()
            &&& p < n.exp_end
            &&& forall|k: int| n.int_start <= k < n.int_end ==> is_digit(#[trigger] s@[k])
            &&& forall|k: int| n.frac_start <= k < n.frac_end ==> is_digit(#[trigger] s@[k])
            &&& forall|k: int| n.exp_start <= k < n.exp_end ==> is_digit(#[trigger] s@[k])
        },
{
    let ghost sv = s@;
    let len = s.len();
    let negative = s[p] == '-';
    let a: usize = if negative { p + 1 } else { p };
    if !(a < len && '0' <= s[a] && s[a] <= '9') {
        return Err(JsonError::Syntax { position: a, expected: Expected::Digit });
    }
    let b: usize = if s[a] == '0' { a + 1 } else { skip_digits(s, a) };
    proof {
        lemma_digits_end(sv, a as int);
    }
    let has_frac = b < len && s[b] == '.';
    if has_frac && !(b + 1 < len && '0' <= s[b + 1] && s[b + 1] <= '9') {
        return Err(JsonError::Syntax { position: b + 1, expected: Expected::Digit });
    }
    let fs: usize = if has_frac { b + 1 } else { b };
    let fe: usize = if has_frac { skip_digits(s, b + 1) } else { b };
    proof {
        lemma_digits_end(sv, fs as int);
    }
    if fe < len && (s[fe] == 'e' || s[fe] == 'E') {
        let signed = fe + 1 < len && (s[fe + 1] == '+' || s[fe + 1] == '-');
        let x: usize = if signed { fe + 2 } else { fe + 1 };
        if !(x < len && '0' <= s[x] && s[x] <= '9') {
            return Err(JsonError::Syntax { position: x, expected: Expected::Digit });
        }
        let xe = skip_digits(s, x);
        proof {
            lemma_digits_end(sv, x as int);
        }
        Ok(
            NumeralParts {
                negative,
                int_start: a,
                int_end: b,
                frac_start: fs,
                frac_end: fe,
                exp_negative: signed && s[fe + 1] == '-',
                exp_start: x,
                exp_end: xe,
            },
        )
    } else {
        Ok(
            NumeralParts {
                negative,
                int_start: a,
                int_end: b,
                frac_start: fs,
                frac_end: fe,
                exp_negative: false,
                exp_start: fe,
                exp_end: fe,
            },
        )
    }
}

/// Reads the exponent digits `s[lo..hi]`: their value, or `None` where it
/// passes `EXP_CAP`.
fn exponent_value(s: &Vec<char>, lo: usize, hi: usize) -> (r: Option<u128>)
    requires
        lo <= hi <= s@.len(),
        forall|j: int| lo <= j < hi ==> is_digit(#[trigger] s@[j]),
    ensures
        match r {
            Some(v) => v == decimal_value(digit_values(s@.subrange(lo as int, hi as int))) && v
                <= EXP_CAP,
            None => decimal_value(digit_values(s@.subrange(lo as int, hi as int))) > EXP_CAP,
        },
{
    let ghost sv = s@;
    let mut ev: u128 = 0;
    let mut huge = false;
    let mut i: usize = lo;
    while i < hi
        invariant
            lo <= i <= hi <= sv.len(),
            s@ == sv,
            forall|j: int| lo <= j < hi ==> is_digit(#[trigger] sv[j]),
            huge ==> decimal_value(digit_values(sv.subrange(lo as int, i as int))) > EXP_CAP,
            !huge ==> ev == decimal_value(digit_values(sv.subrange(lo as int, i as int))),
            !huge ==> ev <= EXP_CAP,
        decreases hi - i,
    {
        let v = digit_of(s[i]);
        let ghost before = digit_values(sv.subrange(lo as int, i as int));
        let ghost after = digit_values(sv.subrange(lo as int, i + 1));
        assert(after.subrange(0, after.len() - 1) =~= before);
        assert(after[after.len() - 1] == v);
        assert(decimal_value(after) == decimal_value(before) * 10 + v);
        if !huge {
            ev = ev * 10 + v as u128;
            if ev > EXP_CAP {
                huge = true;
            }
        }
        i += 1;
    }
    if huge {
        None
    } else {
        Some(ev)
    }
}

/// Copies `d[lo..hi]`.
fn copy_range(d: &Vec<u8>, lo: usize, hi: usize) -> (r: Vec<u8>)
    requires
        lo <= hi <= d@.len(),
    ensures
        r@ == d@.subrange(lo as int, hi as int),
{
    let mut out: Vec<u8> = Vec::new();
    let mut j: usize = lo;
    while j < hi
        invariant
            lo <= j <= hi <= d@.len(),
            out@ == d@.subrange(lo as int, j as int),
        decreases hi - j,
    {
        out.push(d[j]);
        j += 1;
        assert(out@ =~= d@.subrange(lo as int, j as int));
    }
    out
}

/// `d[k..]` without the zeros that close it, where `d[k]` is nonzero.
fn significant_digits(d: &Vec<u8>, k: usize) -> (r: Vec<u8>)
    requires
        k < d@.len(),
        d@[k as int] != 0,
        forall|j: int| 0 <= j < d@.len() ==> #[trigger] d@[j] < 10,
    ensures
        r@ == strip_trailing(d@.subrange(k as int, d@.len() as int)),
        canonical_digits(r@),
        r@.len() > 0,
{
    let dl = d.len();
    let mut m: usize = dl;
    while m > k && d[m - 1] == 0
        invariant
            k < dl == d@.len(),
            k <= m <= dl,
            d@[k as int] != 0,
            forall|j: int| m <= j < dl ==> d@[j] == 0,
        decreases m,
    {
        m -= 1;
    }
    let ghost sig = d@.subrange(k as int, dl as int);
    proof {
        assert forall|j: int| (m - k) <= j < sig.len() implies sig[j] == 0 by {
            assert(sig[j] == d@[k + j]);
        }
        if m > k {
            assert(sig[m - k - 1] == d@[m - 1]);
        }
        lemma_strip_trailing(sig, m - k);
    }
    let digits = copy_range(d, k, m);
    assert(sig.subrange(0, m - k) =~= digits@);
    assert(digits@[0] == d@[k as int]);
    assert(digits@[digits@.len() - 1] == d@[m - 1]);
    assert forall|j: int| 0 <= j < digits@.len() implies #[trigger] digits@[j] < 10 by {
        assert(digits@[j] == d@[k + j]);
    }
    digits
}

/// A number past `MAX_POINT`: an error, or a zero where `strict` is off.
fn out_of_range(p: usize, negative: bool, end: usize, strict: bool) -> (r: Result<
    (JsonNumber, usize),
    JsonError,
>)
    ensures
        strict ==> r == Err::<(JsonNumber, usize), JsonError>(
            JsonError::Decode { position: p, problem: DecodeProblem::NumberOutOfRange },
        ),
        !strict ==> r is Ok && r->Ok_0.0.view() == JsonTree::Num(negative, Seq::empty(), 0)
            && r->Ok_0.1 == end && r->Ok_0.0.wf(),
{
    if strict {
        Err(JsonError::Decode { position: p, problem: DecodeProblem::NumberOutOfRange })
    } else {
        let n = JsonNumber { negative, digits: Vec::new(), point: 0 };
        assert(n.digits@ =~= Seq::<u8>::empty());
        Ok((n, end))
    }
}

/// Reads the number at `s[p..]`: its value and the position just past it.
/// Where `strict` is off, decode problems are passed over.
pub fn parse_number(s: &Vec<char>, p: usize, strict: bool) -> (r: Result<(JsonNumber, usize), JsonError>)
    requires
        p < s.len(),
    ensures
        match r {
            Ok((n, e)) => number_at(s@, p as int, strict) == Ok::<(JsonTree, int), JsonError>(
                (n.view(), e as int),
            ),
            Err(x) => number_at(s@, p as int, strict) == Err::<(JsonTree, int), JsonError>(x),
        },
        !strict && r is Err ==> r->Err_0 is Syntax,
        r is Ok ==> p < r->Ok_0.1 <= s@.len(),
        r is Ok ==> r->Ok_0.0.wf(),
{
    let ghost sv = s@;
    let parts = match lex_numeral(s, p) {
        Err(e) => {
            return Err(e);
        },
        Ok(n) => n,
    };
    let ghost span = parts.view();
    // The significant digits, and the zeros that open them.
    let mut d: Vec<u8> = Vec::new();
    push_digit_values(&mut d, s, parts.int_start, parts.int_end);
    push_digit_values(&mut d, s, parts.frac_start, parts.frac_end);
    assert(d@ =~= numeral_digits(sv, span));
    assert(forall|j: int| 0 <= j < d@.len() ==> #[trigger] d@[j] < 10);
    let dl = d.len();
    let mut k: usize = 0;
    while k < dl && d[k] == 0
        invariant
            k <= dl == d@.len(),
            forall|j: int| 0 <= j < k ==> d@[j] == 0,
        decreases dl - k,
    {
        k += 1;
    }
    proof {
        lemma_lead_zeros(d@, k as int);
    }
    if k == dl {
        let n = JsonNumber { negative: parts.negative, digits: Vec::new(), point: 0 };
        assert(n.digits@ =~= Seq::<u8>::empty());
        return Ok((n, parts.exp_end));
    }
    let ev = match exponent_value(s, parts.exp_start, parts.exp_end) {
        None => {
            if parts.exp_negative {
                assert(numeral_point(sv, span) < MIN_POINT);
                let n = JsonNumber { negative: parts.negative, digits: Vec::new(), point: 0 };
                assert(n.digits@ =~= Seq::<u8>::empty());
                return Ok((n, parts.exp_end));
            } else {
                assert(numeral_point(sv, span) > MAX_POINT);
                return out_of_range(p, parts.negative, parts.exp_end, strict);
            }
        },
        Some(v) => v,
    };
    let e_signed: i128 = if parts.exp_negative { -(ev as i128) } else { ev as i128 };
    let point: i128 = e_signed + (parts.int_end - parts.int_start) as i128 - k as i128;
    assert(point == numeral_point(sv, span));
    if point < MIN_POINT as i128 {
        let n = JsonNumber { negative: parts.negative, digits: Vec::new(), point: 0 };
        assert(n.digits@ =~= Seq::<u8>::empty());
        return Ok((n, parts.exp_end));
    }
    if point > MAX_POINT as i128 {
        return out_of_range(p, parts.negative, parts.exp_end, strict);
    }
    let digits = significant_digits(&d, k);
    let n = JsonNumber { negative: parts.negative, digits, point: point as i64 };
    Ok((n, parts.exp_end))
}

} // verus!
