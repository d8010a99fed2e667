use vstd::prelude::*;
use crate::error::JsonError;
use crate::number::{
    digit_value, digit_values, lemma_lead_zeros, lemma_strip_trailing, number_at, numeral_at,
    numeral_digits, numeral_point, NumeralSpan, MAX_POINT, MIN_POINT,
};
use crate::parser::{parse_document, parse_elements, parse_members, parse_value};
use crate::printer::{
    digit_char, digit_chars, escape_char, escape_key, hex_char, indent, render, render_items, render_number, render_pairs, zeros,
};
use crate::scan::{digits_end, is_digit, is_ws, skip_ws};
use crate::string_lit::{
    code_char, code_of, hex4, hex_val, is_hex, lemma_escape_len, string_at, string_rest,
};
use crate::value::{
    canonical_digits, depth, depth_items, depth_pairs, lemma_depth_items, lemma_depth_pairs,
    numbers_wf, JsonTree,
};

verus! {

/// A character that cannot continue a number.
pub open spec fn ends_number(s: Seq<char>, i: int) -> bool {
    i == s.len() || (0 <= i < s.len() && !is_digit(s[i]) && s[i] != '.' && s[i] != 'e' && s[i]
        != 'E')
}

proof fn lemma_digits_end_exact(s: Seq<char>, i: int, j: int)
    requires
        0 <= i <= j <= s.len(),
        forall|k: int| i <= k < j ==> is_digit(#[trigger] s[k]),
        j == s.len() || !is_digit(s[j]),
    ensures
        digits_end(s, i) == j,
    decreases j - i,
{
    if i < j {
        lemma_digits_end_exact(s, i + 1, j);
    }
}

proof fn lemma_digit_char(x: u8)
    requires
        x < 10,
    ensures
        is_digit(digit_char(x)),
        digit_value(digit_char(x)) == x,
        (x == 0) == (digit_char(x) == '0'),
{
    assert(((x % 10) + 48) as u8 as char == (x + 48) as u8 as char);
}

proof fn lemma_digit_chars(d: Seq<u8>)
    requires
        forall|i: int| 0 <= i < d.len() ==> #[trigger] d[i] < 10,
    ensures
        digit_values(digit_chars(d)) == d,
        forall|i: int| 0 <= i < d.len() ==> is_digit(#[trigger] digit_chars(d)[i]),
{
    assert forall|i: int| 0 <= i < d.len() implies is_digit(#[trigger] digit_chars(d)[i])
        && digit_values(digit_chars(d))[i] == d[i] by {
        lemma_digit_char(d[i]);
    }
    assert(digit_values(digit_chars(d)) =~= d);
}

proof fn lemma_zero_chars(n: nat)
    ensures
        digit_values(zeros(n)) == Seq::new(n, |i: int| 0u8),
        forall|i: int| 0 <= i < n ==> is_digit(#[trigger] zeros(n)[i]),
{
    assert(digit_values(zeros(n)) =~= Seq::new(n, |i: int| 0u8));
}

/// A piece of a text found at a place in a larger one.
proof fn lemma_piece(s: Seq<char>, q: int, r: Seq<char>, off: int, part: Seq<char>)
    requires
        0 <= q,
        q + r.len() <= s.len(),
        s.subrange(q, q + r.len()) == r,
        0 <= off,
        off + part.len() <= r.len(),
        r.subrange(off, off + part.len()) == part,
    ensures
        s.subrange(q + off, q + off + part.len()) == part,
        forall|k: int| 0 <= k < part.len() ==> s[q + off + k] == #[trigger] part[k],
{
    assert forall|k: int| 0 <= k < part.len() implies s[q + off + k] == #[trigger] part[k] by {
        assert(s.subrange(q, q + r.len())[off + k] == s[q + off + k]);
        assert(r.subrange(off, off + part.len())[k] == r[off + k]);
    }
    assert(s.subrange(q + off, q + off + part.len()) =~= part);
}

/// The requirements of the number round trip.
pub open spec fn number_written_at(s: Seq<char>, q: int, negative: bool, d: Seq<u8>, point: int) -> bool {
    let r = render_number(negative, d, point);
    &&& canonical_digits(d)
    &&& d.len() == 0 ==> point == 0
    &&& d.len() > 0 ==> MIN_POINT <= point <= MAX_POINT
    &&& 0 <= q
    &&& q + r.len() <= s.len()
    &&& s.subrange(q, q + r.len()) == r
    &&& ends_number(s, q + r.len())
}

proof fn lemma_sign(s: Seq<char>, q: int, negative: bool, d: Seq<u8>, point: int)
    requires
        number_written_at(s, q, negative, d, point),
    ensures
        ({
            let r = render_number(negative, d, point);
            let a = if negative { q + 1 } else { q };
            let body = r.subrange(a - q, r.len() as int);
            &&& a - q <= r.len()
            &&& s.subrange(a, q + r.len()) == body
            &&& negative ==> s[q] == '-'
            &&& (negative <==> s[q] == '-')
        }),
{
    let r = render_number(negative, d, point);
    let a = if negative { q + 1 } else { q };
    lemma_piece(s, q, r, a - q, r.subrange(a - q, r.len() as int));
    if negative {
        assert(r[0] == '-');
        assert(s.subrange(q, q + r.len())[0] == s[q]);
    } else {
        assert(s.subrange(q, q + r.len())[0] == s[q]);
        assert(r[0] != '-');
    }
}

proof fn lemma_round_trip_zero(s: Seq<char>, q: int, negative: bool, d: Seq<u8>, point: int, strict: bool)
    requires
        number_written_at(s, q, negative, d, point),
        d.len() == 0,
    ensures
        number_at(s, q, strict) == Ok::<(JsonTree, int), JsonError>(
            (JsonTree::Num(negative, d, point), q + render_number(negative, d, point).len()),
        ),
{
    lemma_sign(s, q, negative, d, point);
    let r = render_number(negative, d, point);
    let a = if negative { q + 1 } else { q };
    let body = r.subrange(a - q, r.len() as int);
    assert(body =~= seq!['0']);
    assert(s.subrange(a, a + 1)[0] == s[a]);
    assert(s[a] == '0');
    let end = q + r.len();
    assert(end == a + 1);
    let ed = digit_values(s.subrange(end, end));
    assert(ed =~= Seq::<u8>::empty());
    let span = numeral_at(s, q)->Ok_0;
    assert(numeral_at(s, q) is Ok);
    let dd = digit_values(s.subrange(a, a + 1)) + digit_values(s.subrange(a + 1, a + 1));
    assert(dd =~= seq![0u8]);
    lemma_lead_zeros(dd, 1);
    assert(d =~= Seq::<u8>::empty());
}

proof fn lemma_round_trip_whole(s: Seq<char>, q: int, negative: bool, d: Seq<u8>, point: int, strict: bool)
    requires
        number_written_at(s, q, negative, d, point),
        d.len() > 0,
        point >= d.len(),
    ensures
        number_at(s, q, strict) == Ok::<(JsonTree, int), JsonError>(
            (JsonTree::Num(negative, d, point), q + render_number(negative, d, point).len()),
        ),
{
    lemma_sign(s, q, negative, d, point);
    let r = render_number(negative, d, point);
    let a = if negative { q + 1 } else { q };
    let end = q + r.len();
    let body = digit_chars(d) + zeros((point - d.len()) as nat);
    assert(r.subrange(a - q, r.len() as int) =~= body);
    lemma_digit_chars(d);
    lemma_zero_chars((point - d.len()) as nat);
    assert forall|k: int| a <= k < end implies is_digit(#[trigger] s[k]) by {
        assert(s.subrange(a, end)[k - a] == s[k]);
        if k - a >= d.len() {
            assert(body[k - a] == zeros((point - d.len()) as nat)[k - a - d.len()]);
        } else {
            assert(body[k - a] == digit_chars(d)[k - a]);
        }
    }
    assert(s.subrange(a, end)[0] == s[a]);
    assert(s[a] == digit_char(d[0]));
    lemma_digit_char(d[0]);
    lemma_digits_end_exact(s, a, end);
    let ed = digit_values(s.subrange(end, end));
    assert(ed =~= Seq::<u8>::empty());
    let dd = digit_values(s.subrange(a, end)) + digit_values(s.subrange(end, end));
    assert(digit_values(body) =~= digit_values(digit_chars(d)) + digit_values(
        zeros((point - d.len()) as nat),
    ));
    assert(dd =~= d + Seq::new((point - d.len()) as nat, |i: int| 0u8));
    lemma_lead_zeros(dd, 0);
    lemma_strip_trailing(dd, d.len() as int);
    assert(dd.subrange(0, dd.len() as int) =~= dd);
    assert(dd.subrange(0, d.len() as int) =~= d);
}

proof fn lemma_round_trip_fraction(s: Seq<char>, q: int, negative: bool, d: Seq<u8>, point: int, strict: bool)
    requires
        number_written_at(s, q, negative, d, point),
        0 < point < d.len(),
    ensures
        number_at(s, q, strict) == Ok::<(JsonTree, int), JsonError>(
            (JsonTree::Num(negative, d, point), q + render_number(negative, d, point).len()),
        ),
{
    lemma_sign(s, q, negative, d, point);
    let r = render_number(negative, d, point);
    let a = if negative { q + 1 } else { q };
    let end = q + r.len();
    let d1 = digit_chars(d.subrange(0, point));
    let d2 = digit_chars(d.subrange(point, d.len() as int));
    let body = d1 + seq!['.'] + d2;
    assert(r.subrange(a - q, r.len() as int) =~= body);
    lemma_digit_chars(d.subrange(0, point));
    lemma_digit_chars(d.subrange(point, d.len() as int));
    let b = a + point;
    assert(body.subrange(0, d1.len() as int) =~= d1);
    assert(body.subrange(point + 1, point + 1 + d2.len()) =~= d2);
    lemma_piece(s, a, body, 0, d1);
    lemma_piece(s, a, body, point + 1, d2);
    assert(body[point] == '.');
    assert(s.subrange(a, end)[point] == s[b]);
    assert(s[b] == '.');
    assert forall|k: int| a <= k < b implies is_digit(#[trigger] s[k]) by {
        assert(s[a + (k - a)] == d1[k - a]);
    }
    assert forall|k: int| b + 1 <= k < end implies is_digit(#[trigger] s[k]) by {
        assert(s[a + (point + 1) + (k - b - 1)] == d2[k - b - 1]);
    }
    assert(s[a + 0] == d1[0]);
    assert(d.subrange(0, point)[0] == d[0]);
    lemma_digit_char(d[0]);
    lemma_digits_end_exact(s, a, b);
    lemma_digits_end_exact(s, b + 1, end);
    let ed = digit_values(s.subrange(end, end));
    assert(ed =~= Seq::<u8>::empty());
    let dd = digit_values(s.subrange(a, b)) + digit_values(s.subrange(b + 1, end));
    assert(dd =~= d);
    lemma_lead_zeros(dd, 0);
    lemma_strip_trailing(dd, d.len() as int);
    assert(dd.subrange(0, dd.len() as int) =~= dd);
}

proof fn lemma_small_digits(d: Seq<u8>, n: nat)
    requires
        canonical_digits(d),
        d.len() > 0,
    ensures
        ({
            let frac = zeros(n) + digit_chars(d);
            &&& forall|k: int| 0 <= k < frac.len() ==> is_digit(#[trigger] frac[k])
            &&& digit_values(seq!['0']) + digit_values(frac) == seq![0u8] + Seq::new(
                n,
                |i: int| 0u8,
            ) + d
        }),
{
    let frac = zeros(n) + digit_chars(d);
    lemma_zero_chars(n);
    lemma_digit_chars(d);
    assert forall|k: int| 0 <= k < frac.len() implies is_digit(#[trigger] frac[k]) by {
        if k >= n {
            assert(frac[k] == digit_chars(d)[k - n]);
        } else {
            assert(frac[k] == zeros(n)[k]);
        }
    }
    assert(digit_values(frac) =~= digit_values(zeros(n)) + digit_values(digit_chars(d)));
    lemma_digit_char(0);
    assert(digit_values(seq!['0']) =~= seq![0u8]);
    assert(digit_values(seq!['0']) + digit_values(frac) =~= seq![0u8] + Seq::new(
        n,
        |i: int| 0u8,
    ) + d);
}

#[verifier::rlimit(100)]
proof fn lemma_round_trip_small(s: Seq<char>, q: int, negative: bool, d: Seq<u8>, point: int, strict: bool)
    requires
        number_written_at(s, q, negative, d, point),
        d.len() > 0,
        point <= 0,
    ensures
        number_at(s, q, strict) == Ok::<(JsonTree, int), JsonError>(
            (JsonTree::Num(negative, d, point), q + render_number(negative, d, point).len()),
        ),
{
    lemma_sign(s, q, negative, d, point);
    let r = render_number(negative, d, point);
    let a = if negative { q + 1 } else { q };
    let end = q + r.len();
    let n = (-point) as nat;
    let frac = zeros(n) + digit_chars(d);
    lemma_small_digits(d, n);
    let body = seq!['0', '.'] + frac;
    assert(r.subrange(a - q, r.len() as int) =~= body);
    let b = a + 1;
    assert(body.subrange(2, 2 + frac.len() as int) =~= frac);
    lemma_piece(s, a, body, 2, frac);
    assert(s.subrange(a, end)[0] == s[a]);
    assert(s.subrange(a, end)[1] == s[b]);
    assert(s[a] == '0');
    assert(s[b] == '.');
    assert forall|k: int| b + 1 <= k < end implies is_digit(#[trigger] s[k]) by {
        assert(s[a + 2 + (k - b - 1)] == frac[k - b - 1]);
    }
    assert(is_digit(s[b + 1])) by {
        assert(s[a + 2 + 0] == frac[0]);
    }
    lemma_digits_end_exact(s, b + 1, end);
    assert(s.subrange(a, b) =~= seq!['0']);
    let span = NumeralSpan {
        negative,
        int_start: a,
        int_end: b,
        frac_start: b + 1,
        frac_end: end,
        exp_negative: false,
        exp_start: end,
        exp_end: end,
    };
    assert(numeral_at(s, q) == Ok::<NumeralSpan, JsonError>(span));
    let ed = digit_values(s.subrange(end, end));
    assert(ed =~= Seq::<u8>::empty());
    let zs = Seq::new(n, |i: int| 0u8);
    let dd = numeral_digits(s, span);
    assert(dd =~= seq![0u8] + zs + d);
    lemma_lead_zeros(dd, 1 - point);
    let sig = dd.subrange(1 - point, dd.len() as int);
    assert(sig =~= d);
    lemma_strip_trailing(sig, d.len() as int);
    assert(sig.subrange(0, d.len() as int) =~= d);
    assert(numeral_point(s, span) == point);
}

/// The number text that the printer writes reads back as the same number.
pub proof fn lemma_number_round_trip(s: Seq<char>, q: int, negative: bool, d: Seq<u8>, point: int, strict: bool)
    requires
        number_written_at(s, q, negative, d, point),
    ensures
        number_at(s, q, strict) == Ok::<(JsonTree, int), JsonError>(
            (JsonTree::Num(negative, d, point), q + render_number(negative, d, point).len()),
        ),
{
    if d.len() == 0 {
        lemma_round_trip_zero(s, q, negative, d, point, strict);
    } else if point >= d.len() {
        lemma_round_trip_whole(s, q, negative, d, point, strict);
    } else if point > 0 {
        lemma_round_trip_fraction(s, q, negative, d, point, strict);
    } else {
        lemma_round_trip_small(s, q, negative, d, point, strict);
    }
}

/// `w` stands in `s` from position `i` on.
pub open spec fn text_at(s: Seq<char>, i: int, w: Seq<char>) -> bool {
    0 <= i && i + w.len() <= s.len() && s.subrange(i, i + w.len()) == w
}

proof fn lemma_text_split(s: Seq<char>, i: int, a: Seq<char>, b: Seq<char>)
    requires
        text_at(s, i, a + b),
    ensures
        text_at(s, i, a),
        text_at(s, i + a.len(), b),
{
    let w = a + b;
    assert(s.subrange(i, i + a.len()) =~= w.subrange(0, a.len() as int));
    assert(w.subrange(0, a.len() as int) =~= a);
    assert(s.subrange(i + a.len(), i + a.len() + b.len()) =~= w.subrange(
        a.len() as int,
        w.len() as int,
    ));
    assert(w.subrange(a.len() as int, w.len() as int) =~= b);
}

proof fn lemma_text_char(s: Seq<char>, i: int, w: Seq<char>, k: int)
    requires
        text_at(s, i, w),
        0 <= k < w.len(),
    ensures
        s[i + k] == w[k],
{
    assert(s.subrange(i, i + w.len())[k] == s[i + k]);
}

proof fn lemma_ws_block(s: Seq<char>, i: int, j: int)
    requires
        0 <= i <= j < s.len(),
        forall|k: int| i <= k < j ==> is_ws(#[trigger] s[k]),
        !is_ws(s[j]),
    ensures
        skip_ws(s, i) == j,
    decreases j - i,
{
    if i < j {
        lemma_ws_block(s, i + 1, j);
    }
}

/// A newline and the indentation of `level` at `s[i..]`, then a character
/// that is no whitespace: whitespace skipping lands on that character.
proof fn lemma_skip_break(s: Seq<char>, i: int, level: nat, w: Seq<char>)
    requires
        text_at(s, i, seq!['\n'] + indent(level) + w),
        w.len() > 0,
        !is_ws(w[0]),
    ensures
        skip_ws(s, i) == i + 1 + 2 * level,
        s[i + 1 + 2 * level] == w[0],
{
    let x = seq!['\n'] + indent(level) + w;
    assert forall|k: int| i <= k < i + 1 + 2 * level implies is_ws(#[trigger] s[k]) by {
        lemma_text_char(s, i, x, k - i);
    }
    lemma_text_char(s, i, x, 1 + 2 * level as int);
    lemma_ws_block(s, i, i + 1 + 2 * level);
}

/// A tree whose printed text reads back as itself: it holds no string value
/// and its numbers are well formed.
pub open spec fn printable(t: JsonTree) -> bool
    decreases t,
{
    match t {
        JsonTree::Str(_) => false,
        JsonTree::Num(negative, d, point) => canonical_digits(d) && (d.len() == 0 ==> point == 0)
            && (d.len() > 0 ==> MIN_POINT <= point <= MAX_POINT),
        JsonTree::Arr(xs) => forall|i: int| 0 <= i < xs.len() ==> printable(#[trigger] xs[i]),
        JsonTree::Obj(ps) => forall|i: int| 0 <= i < ps.len() ==> printable(#[trigger] ps[i].1),
        _ => true,
    }
}

proof fn lemma_hex_char(n: int)
    requires
        0 <= n < 16,
    ensures
        is_hex(hex_char(n)),
        hex_val(hex_char(n)) == n,
{
}

/// A key character as the printer escapes it reads back as that character.
proof fn lemma_escaped_char(s: Seq<char>, i: int, c: char, acc: Seq<char>, strict: bool)
    requires
        text_at(s, i, escape_char(c)),
        i + escape_char(c).len() < s.len(),
    ensures
        string_rest(s, i, acc, strict) == string_rest(s, i + escape_char(c).len(), acc.push(c), strict),
{
    reveal(escape_char);
    let ec = escape_char(c);
    lemma_text_char(s, i, ec, 0);
    if c == '"' || c == '\\' {
        lemma_text_char(s, i, ec, 1);
        lemma_escape_len(s, i, strict);
    } else if ' ' > c {
        let n = c as int;
        lemma_text_char(s, i, ec, 1);
        lemma_text_char(s, i, ec, 2);
        lemma_text_char(s, i, ec, 3);
        lemma_text_char(s, i, ec, 4);
        lemma_text_char(s, i, ec, 5);
        lemma_hex_char(n / 16);
        lemma_hex_char(n % 16);
        lemma_hex_char(0);
        assert(hex_char(0) == '0');
        assert(hex4(s, i + 2) == Some(n / 16 * 16 + n % 16));
        assert(n / 16 * 16 + n % 16 == n);
        assert(code_of(c) == n);
        let x = code_char(n);
        assert(code_of(x) == n);
        assert(x == c);
        lemma_escape_len(s, i, strict);
    }
}

proof fn lemma_escaped_string(s: Seq<char>, i: int, k: Seq<char>, acc: Seq<char>, strict: bool)
    requires
        text_at(s, i, escape_key(k) + seq!['"']),
    ensures
        string_rest(s, i, acc, strict) == Ok::<(Seq<char>, int), JsonError>(
            (acc + k, i + escape_key(k).len() + 1),
        ),
    decreases k.len(),
{
    reveal(escape_key);
    if k.len() == 0 {
        assert(escape_key(k) + seq!['"'] =~= seq!['"']);
        lemma_text_char(s, i, seq!['"'], 0);
        assert(acc + k =~= acc);
    } else {
        let c = k[0];
        let rest = k.subrange(1, k.len() as int);
        let ec = escape_char(c);
        assert(escape_key(k) + seq!['"'] =~= ec + (escape_key(rest) + seq!['"']));
        lemma_text_split(s, i, ec, escape_key(rest) + seq!['"']);
        lemma_escaped_char(s, i, c, acc, strict);
        lemma_escaped_string(s, i + ec.len(), rest, acc.push(c), strict);
        assert(acc.push(c) + rest =~= acc + k);
    }
}

/// A character that can open a value.
pub open spec fn value_start(c: char) -> bool {
    c == '{' || c == '[' || c == '-' || is_digit(c) || c == 't' || c == 'f' || c == 'n'
}

proof fn lemma_render_head(t: JsonTree, level: nat)
    requires
        printable(t),
    ensures
        render(t, level).len() > 0,
        value_start(render(t, level)[0]),
        t is Num ==> render(t, level)[0] == '-' || is_digit(render(t, level)[0]),
{
    match t {
        JsonTree::Num(negative, d, point) => {
            let r = render_number(negative, d, point);
            if !negative && d.len() > 0 && point > 0 {
                lemma_digit_chars(d);
                lemma_digit_char(d[0]);
                if point >= d.len() {
                    assert(r[0] == digit_chars(d)[0]);
                } else {
                    assert(r[0] == digit_chars(d.subrange(0, point))[0]);
                }
            }
        },
        _ => {},
    }
}

/// The array entries `xs[..j]`, as the printer writes them, are a prefix of
/// all of them.
proof fn lemma_items_prefix(xs: Seq<JsonTree>, level: nat, j: int)
    requires
        0 <= j <= xs.len(),
    ensures
        render_items(xs.subrange(0, j), level).len() <= render_items(xs, level).len(),
        render_items(xs, level).subrange(0, render_items(xs.subrange(0, j), level).len() as int)
            == render_items(xs.subrange(0, j), level),
    decreases xs.len() - j,
{
    let a = render_items(xs.subrange(0, j), level);
    if j == xs.len() {
        assert(xs.subrange(0, j) =~= xs);
        assert(a.subrange(0, a.len() as int) =~= a);
    } else {
        lemma_items_prefix(xs, level, j + 1);
        let ys = xs.subrange(0, j + 1);
        assert(ys.subrange(0, j) =~= xs.subrange(0, j));
        let b = render_items(ys, level);
        let full = render_items(xs, level);
        assert(b.subrange(0, a.len() as int) =~= a);
        assert(full.subrange(0, a.len() as int) =~= b.subrange(0, a.len() as int));
    }
}

proof fn lemma_pairs_prefix(ps: Seq<(Seq<char>, JsonTree)>, level: nat, j: int)
    requires
        0 <= j <= ps.len(),
    ensures
        render_pairs(ps.subrange(0, j), level).len() <= render_pairs(ps, level).len(),
        render_pairs(ps, level).subrange(0, render_pairs(ps.subrange(0, j), level).len() as int)
            == render_pairs(ps.subrange(0, j), level),
    decreases ps.len() - j,
{
    let a = render_pairs(ps.subrange(0, j), level);
    if j == ps.len() {
        assert(ps.subrange(0, j) =~= ps);
        assert(a.subrange(0, a.len() as int) =~= a);
    } else {
        lemma_pairs_prefix(ps, level, j + 1);
        let ys = ps.subrange(0, j + 1);
        assert(ys.subrange(0, j) =~= ps.subrange(0, j));
        let b = render_pairs(ys, level);
        let full = render_pairs(ps, level);
        assert(b.subrange(0, a.len() as int) =~= a);
        assert(full.subrange(0, a.len() as int) =~= b.subrange(0, a.len() as int));
    }
}

proof fn lemma_text_join(s: Seq<char>, i: int, a: Seq<char>, b: Seq<char>)
    requires
        text_at(s, i, a),
        text_at(s, i + a.len(), b),
    ensures
        text_at(s, i, a + b),
{
    assert forall|k: int| 0 <= k < a.len() + b.len() implies s.subrange(i, i + a.len() + b.len())[k]
        == (a + b)[k] by {
        if k < a.len() {
            lemma_text_char(s, i, a, k);
        } else {
            lemma_text_char(s, i + a.len(), b, k - a.len());
        }
    }
    assert(s.subrange(i, i + a.len() + b.len()) =~= a + b);
}

/// `text_at` of a prefix of `w`.
proof fn lemma_text_prefix(s: Seq<char>, i: int, w: Seq<char>, n: int)
    requires
        text_at(s, i, w),
        0 <= n <= w.len(),
    ensures
        text_at(s, i, w.subrange(0, n)),
{
    assert(w =~= w.subrange(0, n) + w.subrange(n, w.len() as int));
    lemma_text_split(s, i, w.subrange(0, n), w.subrange(n, w.len() as int));
}

proof fn lemma_open_array(s: Seq<char>, p: int, strict: bool)
    requires
        0 <= p < s.len(),
        s[p] == '[',
        skip_ws(s, p) == p,
    ensures
        ({
            let m = skip_ws(s, p + 1);
            parse_value(s, p, strict) == if m < s.len() && s[m] == ']' {
                Ok::<(JsonTree, int), JsonError>((JsonTree::Arr(Seq::empty()), m + 1))
            } else {
                parse_elements(s, m, Seq::empty(), strict)
            }
        }),
{
}

proof fn lemma_open_object(s: Seq<char>, p: int, strict: bool)
    requires
        0 <= p < s.len(),
        s[p] == '{',
        skip_ws(s, p) == p,
    ensures
        ({
            let m = skip_ws(s, p + 1);
            parse_value(s, p, strict) == if m < s.len() && s[m] == '}' {
                Ok::<(JsonTree, int), JsonError>((JsonTree::Obj(Seq::empty()), m + 1))
            } else {
                parse_members(s, m, Seq::empty(), strict)
            }
        }),
{
}

/// One member read, then a comma or the closing brace.
proof fn lemma_member_step(
    s: Seq<char>,
    m: int,
    acc: Seq<(Seq<char>, JsonTree)>,
    key: Seq<char>,
    e1: int,
    v: JsonTree,
    e2: int,
    t: int, strict: bool,
)
    requires
        0 <= m < s.len(),
        s[m] == '"',
        string_at(s, m, strict) == Ok::<(Seq<char>, int), JsonError>((key, e1)),
        skip_ws(s, e1) == e1,
        e1 < s.len(),
        s[e1] == ':',
        parse_value(s, e1 + 1, strict) == Ok::<(JsonTree, int), JsonError>((v, e2)),
        skip_ws(s, e2) == t,
        e1 < t < s.len(),
    ensures
        s[t] == ',' ==> parse_members(s, m, acc, strict) == parse_members(
            s,
            skip_ws(s, t + 1),
            acc.push((key, v)), strict,
        ),
        s[t] == '}' ==> parse_members(s, m, acc, strict) == Ok::<(JsonTree, int), JsonError>(
            (JsonTree::Obj(acc.push((key, v))), t + 1),
        ),
{
}

proof fn lemma_value_round_trip(s: Seq<char>, p: int, t: JsonTree, level: nat, strict: bool)
    requires
        printable(t),
        text_at(s, p, render(t, level)),
        ends_number(s, p + render(t, level).len()),
    ensures
        parse_value(s, p, strict) == Ok::<(JsonTree, int), JsonError>((t, p + render(t, level).len())),
    decreases depth(t), 2int, 0int,
{
    let r = render(t, level);
    lemma_render_head(t, level);
    lemma_text_char(s, p, r, 0);
    assert(skip_ws(s, p) == p);
    match t {
        JsonTree::Num(negative, d, point) => {
            lemma_number_round_trip(s, p, negative, d, point, strict);
            assert(s[p] == '-' || is_digit(s[p]));
        },
        JsonTree::Arr(xs) => {
            lemma_array_round_trip(s, p, t, level, strict);
        },
        JsonTree::Obj(ps) => {
            lemma_object_round_trip(s, p, t, level, strict);
        },
        _ => {
            assert(s.subrange(p, p + r.len()) == r);
        },
    }
}

#[verifier::rlimit(100)]
#[verifier::spinoff_prover]
proof fn lemma_array_round_trip(s: Seq<char>, p: int, t: JsonTree, level: nat, strict: bool)
    requires
        printable(t),
        t is Arr,
        text_at(s, p, render(t, level)),
        skip_ws(s, p) == p,
    ensures
        parse_value(s, p, strict) == Ok::<(JsonTree, int), JsonError>((t, p + render(t, level).len())),
    decreases depth(t), 1int, 0int,
{
    let r = render(t, level);
    let xs = t->Arr_0;
    lemma_text_char(s, p, r, 0);
    lemma_open_array(s, p, strict);
    if xs.len() == 0 {
        lemma_text_char(s, p, r, 1);
        assert(skip_ws(s, p + 1) == p + 1);
        assert(xs =~= Seq::<JsonTree>::empty());
    } else {
        let l1 = level + 1;
        let items = render_items(xs, l1);
        let tail = seq!['\n'] + indent(level) + seq![']'];
        assert(r =~= seq!['[', '\n'] + (items + tail));
        lemma_text_split(s, p, seq!['[', '\n'], items + tail);
        lemma_text_char(s, p, r, 1);
        let x0 = indent(l1) + render(xs[0], l1);
        lemma_items_prefix(xs, l1, 1);
        assert(render_items(xs.subrange(0, 1), l1) == x0) by {
            assert(xs.subrange(0, 1)[0] == xs[0]);
        }
        lemma_text_split(s, p + 2, items, tail);
        lemma_text_prefix(s, p + 2, items, x0.len() as int);
        assert(text_at(s, p + 1, seq!['\n'])) by {
            assert(s.subrange(p + 1, p + 2) =~= seq!['\n']);
        }
        lemma_text_join(s, p + 1, seq!['\n'], x0);
        assert(seq!['\n'] + x0 =~= seq!['\n'] + indent(l1) + render(xs[0], l1));
        assert(printable(xs[0]));
        lemma_render_head(xs[0], l1);
        lemma_skip_break(s, p + 1, l1, render(xs[0], l1));
        lemma_elements_round_trip(s, p + 2, xs, level, 0, strict);
        assert(xs.subrange(0, 0) =~= Seq::<JsonTree>::empty());
        assert(render_items(xs.subrange(0, 0), l1).len() == 0);
    }
}

#[verifier::rlimit(100)]
#[verifier::spinoff_prover]
proof fn lemma_object_round_trip(s: Seq<char>, p: int, t: JsonTree, level: nat, strict: bool)
    requires
        printable(t),
        t is Obj,
        text_at(s, p, render(t, level)),
        skip_ws(s, p) == p,
    ensures
        parse_value(s, p, strict) == Ok::<(JsonTree, int), JsonError>((t, p + render(t, level).len())),
    decreases depth(t), 1int, 0int,
{
    let r = render(t, level);
    let ps = t->Obj_0;
    lemma_text_char(s, p, r, 0);
    lemma_open_object(s, p, strict);
    if ps.len() == 0 {
        lemma_text_char(s, p, r, 1);
        assert(skip_ws(s, p + 1) == p + 1);
        assert(ps =~= Seq::<(Seq<char>, JsonTree)>::empty());
    } else {
        let l1 = level + 1;
        let items = render_pairs(ps, l1);
        let tail = seq!['\n'] + indent(level) + seq!['}'];
        assert(r =~= seq!['{', '\n'] + (items + tail));
        lemma_text_split(s, p, seq!['{', '\n'], items + tail);
        lemma_text_char(s, p, r, 1);
        let pt = seq!['"'] + escape_key(ps[0].0) + seq!['"', ':', ' '] + render(ps[0].1, l1);
        let x0 = indent(l1) + pt;
        lemma_pairs_prefix(ps, l1, 1);
        assert(render_pairs(ps.subrange(0, 1), l1) =~= x0) by {
            assert(ps.subrange(0, 1)[0] == ps[0]);
        }
        lemma_text_split(s, p + 2, items, tail);
        lemma_text_prefix(s, p + 2, items, x0.len() as int);
        assert(text_at(s, p + 1, seq!['\n'])) by {
            assert(s.subrange(p + 1, p + 2) =~= seq!['\n']);
        }
        lemma_text_join(s, p + 1, seq!['\n'], x0);
        assert(seq!['\n'] + x0 =~= seq!['\n'] + indent(l1) + pt);
        lemma_skip_break(s, p + 1, l1, pt);
        lemma_members_round_trip(s, p + 2, ps, level, 0, strict);
        assert(ps.subrange(0, 0) =~= Seq::<(Seq<char>, JsonTree)>::empty());
        assert(render_pairs(ps.subrange(0, 0), l1).len() == 0);
    }
}

#[verifier::rlimit(100)]
#[verifier::spinoff_prover]
proof fn lemma_elements_round_trip(s: Seq<char>, base: int, xs: Seq<JsonTree>, level: nat, j: int, strict: bool)
    requires
        forall|i: int| 0 <= i < xs.len() ==> printable(#[trigger] xs[i]),
        0 <= j < xs.len(),
        text_at(
            s,
            base,
            render_items(xs, level + 1) + (seq!['\n'] + indent(level) + seq![']']),
        ),
    ensures
        parse_elements(
            s,
            base + render_items(xs.subrange(0, j), level + 1).len() + (if j > 0 {
                2int
            } else {
                0int
            }) + 2 * (level + 1),
            xs.subrange(0, j), strict,
        ) == Ok::<(JsonTree, int), JsonError>(
            (JsonTree::Arr(xs), base + render_items(xs, level + 1).len() + 2 + 2 * level),
        ),
    decreases depth_items(xs) + 1, 0int, xs.len() - j,
{
    let l1 = level + 1;
    let items = render_items(xs, l1);
    let tail = seq!['\n'] + indent(level) + seq![']'];
    let pj = render_items(xs.subrange(0, j), l1);
    let ys = xs.subrange(0, j + 1);
    assert(ys.subrange(0, j) =~= xs.subrange(0, j));
    assert(ys[j] == xs[j]);
    let sep: Seq<char> = if j > 0 { seq![',', '\n'] } else { Seq::empty() };
    let xj = render(xs[j], l1);
    let pj1 = render_items(ys, l1);
    assert(pj1 =~= pj + sep + indent(l1) + xj);
    let st = base + pj.len() + sep.len() + 2 * l1;
    let en = st + xj.len();
    lemma_items_prefix(xs, l1, j + 1);
    lemma_text_split(s, base, items, tail);
    lemma_text_prefix(s, base, items, pj1.len() as int);
    lemma_text_split(s, base, pj + sep + indent(l1), xj);
    lemma_depth_items(xs, j);
    assert(printable(xs[j]));
    let acc2 = xs.subrange(0, j).push(xs[j]);
    assert(acc2 =~= ys);
    if j + 1 < xs.len() {
        let zs = xs.subrange(0, j + 2);
        assert(zs.subrange(0, j + 1) =~= ys);
        assert(zs[j + 1] == xs[j + 1]);
        let next = render(xs[j + 1], l1);
        let pj2 = render_items(zs, l1);
        assert(pj2 =~= pj1 + (seq![','] + (seq!['\n'] + indent(l1) + next)));
        lemma_items_prefix(xs, l1, j + 2);
        lemma_text_prefix(s, base, items, pj2.len() as int);
        lemma_text_split(s, base, pj1, seq![','] + (seq!['\n'] + indent(l1) + next));
        lemma_text_split(s, en, seq![','], seq!['\n'] + indent(l1) + next);
        lemma_text_char(s, en, seq![','], 0);
        lemma_value_round_trip(s, st, xs[j], l1, strict);
        assert(skip_ws(s, en) == en);
        lemma_render_head(xs[j + 1], l1);
        lemma_skip_break(s, en + 1, l1, next);
        lemma_elements_round_trip(s, base, xs, level, j + 1, strict);
    } else {
        assert(ys =~= xs);
        lemma_text_char(s, base + items.len(), tail, 0);
        lemma_value_round_trip(s, st, xs[j], l1, strict);
        assert(tail =~= seq!['\n'] + indent(level) + seq![']']);
        lemma_skip_break(s, en, level, seq![']']);
    }
}

/// The text `"key": value` of one object member reads back as that member.
#[verifier::rlimit(100)]
#[verifier::spinoff_prover]
proof fn lemma_pair_round_trip(s: Seq<char>, st: int, key: Seq<char>, v: JsonTree, level: nat, strict: bool)
    requires
        printable(v),
        text_at(s, st, seq!['"'] + escape_key(key) + seq!['"', ':', ' '] + render(v, level)),
        ends_number(s, st + escape_key(key).len() + 4 + render(v, level).len()),
    ensures
        s[st] == '"',
        string_at(s, st, strict) == Ok::<(Seq<char>, int), JsonError>(
            (key, st + escape_key(key).len() + 2),
        ),
        skip_ws(s, st + escape_key(key).len() + 2) == st + escape_key(key).len() + 2,
        s[st + escape_key(key).len() + 2] == ':',
        parse_value(s, st + escape_key(key).len() + 3, strict) == Ok::<(JsonTree, int), JsonError>(
            (v, st + escape_key(key).len() + 4 + render(v, level).len()),
        ),
    decreases depth(v), 3int, 0int,
{
    let xj = render(v, level);
    let ek = escape_key(key);
    let pt = seq!['"'] + ek + seq!['"', ':', ' '] + xj;
    assert(pt =~= seq!['"'] + ((ek + seq!['"']) + (seq![':'] + (seq![' '] + xj))));
    lemma_text_split(s, st, seq!['"'], (ek + seq!['"']) + (seq![':'] + (seq![' '] + xj)));
    lemma_text_split(s, st + 1, ek + seq!['"'], seq![':'] + (seq![' '] + xj));
    let e1 = st + 1 + ek.len() + 1;
    lemma_text_split(s, e1, seq![':'], seq![' '] + xj);
    lemma_text_split(s, e1 + 1, seq![' '], xj);
    lemma_text_char(s, st, seq!['"'], 0);
    lemma_text_char(s, e1, seq![':'], 0);
    lemma_text_char(s, e1 + 1, seq![' '], 0);
    lemma_escaped_string(s, st + 1, key, Seq::empty(), strict);
    assert(Seq::<char>::empty() + key =~= key);
    assert(skip_ws(s, e1) == e1);
    lemma_render_head(v, level);
    lemma_text_char(s, e1 + 2, xj, 0);
    assert(skip_ws(s, e1 + 2) == e1 + 2);
    assert(skip_ws(s, e1 + 1) == e1 + 2);
    lemma_value_round_trip(s, e1 + 2, v, level, strict);
    assert(parse_value(s, e1 + 1, strict) == parse_value(s, e1 + 2, strict));
}

/// An object member as the printer writes it: `"key": value`.
pub open spec fn pair_text(p: (Seq<char>, JsonTree), level: nat) -> Seq<char> {
    seq!['"'] + escape_key(p.0) + seq!['"', ':', ' '] + render(p.1, level)
}

/// Where the text of member `j` starts, counted from the first member's line.
pub open spec fn member_start(ps: Seq<(Seq<char>, JsonTree)>, level: nat, j: int) -> int {
    render_pairs(ps.subrange(0, j), level + 1).len() + (if j > 0 {
        2int
    } else {
        0int
    }) + 2 * (level + 1)
}

proof fn lemma_member_layout(s: Seq<char>, base: int, ps: Seq<(Seq<char>, JsonTree)>, level: nat, j: int)
    requires
        0 <= j < ps.len(),
        text_at(s, base, render_pairs(ps, level + 1) + (seq!['\n'] + indent(level) + seq!['}'])),
    ensures
        text_at(s, base + member_start(ps, level, j), pair_text(ps[j], level + 1)),
        ({
            let en = base + member_start(ps, level, j) + pair_text(ps[j], level + 1).len();
            &&& j + 1 < ps.len() ==> text_at(
                s,
                en,
                seq![','] + (seq!['\n'] + indent(level + 1) + pair_text(ps[j + 1], level + 1)),
            )
            &&& j + 1 < ps.len() ==> member_start(ps, level, j + 1) == en - base + 2 + 2 * (level
                + 1)
            &&& j + 1 == ps.len() ==> text_at(s, en, seq!['\n'] + indent(level) + seq!['}'])
            &&& j + 1 == ps.len() ==> en == base + render_pairs(ps, level + 1).len()
        }),
{
    let l1 = level + 1;
    let items = render_pairs(ps, l1);
    let tail = seq!['\n'] + indent(level) + seq!['}'];
    let pj = render_pairs(ps.subrange(0, j), l1);
    let ys = ps.subrange(0, j + 1);
    assert(ys.subrange(0, j) =~= ps.subrange(0, j));
    assert(ys[j] == ps[j]);
    let sep: Seq<char> = if j > 0 { seq![',', '\n'] } else { Seq::empty() };
    let pt = pair_text(ps[j], l1);
    let pj1 = render_pairs(ys, l1);
    assert(pj1 =~= pj + sep + indent(l1) + pt);
    let en = base + pj1.len();
    lemma_pairs_prefix(ps, l1, j + 1);
    lemma_text_split(s, base, items, tail);
    lemma_text_prefix(s, base, items, pj1.len() as int);
    lemma_text_split(s, base, pj + sep + indent(l1), pt);
    if j + 1 < ps.len() {
        let zs = ps.subrange(0, j + 2);
        assert(zs.subrange(0, j + 1) =~= ys);
        assert(zs[j + 1] == ps[j + 1]);
        let next = pair_text(ps[j + 1], l1);
        let pj2 = render_pairs(zs, l1);
        assert(pj2 =~= pj1 + (seq![','] + (seq!['\n'] + indent(l1) + next)));
        lemma_pairs_prefix(ps, l1, j + 2);
        lemma_text_prefix(s, base, items, pj2.len() as int);
        lemma_text_split(s, base, pj1, seq![','] + (seq!['\n'] + indent(l1) + next));
    } else {
        assert(ys =~= ps);
    }
}

#[verifier::rlimit(100)]
#[verifier::spinoff_prover]
proof fn lemma_members_round_trip(
    s: Seq<char>,
    base: int,
    ps: Seq<(Seq<char>, JsonTree)>,
    level: nat,
    j: int,
    strict: bool,
)
    requires
        forall|i: int| 0 <= i < ps.len() ==> printable(#[trigger] ps[i].1),
        0 <= j < ps.len(),
        text_at(
            s,
            base,
            render_pairs(ps, level + 1) + (seq!['\n'] + indent(level) + seq!['}']),
        ),
    ensures
        parse_members(s, base + member_start(ps, level, j), ps.subrange(0, j), strict) == Ok::<
            (JsonTree, int),
            JsonError,
        >((JsonTree::Obj(ps), base + render_pairs(ps, level + 1).len() + 2 + 2 * level)),
    decreases depth_pairs(ps) + 1, 0int, ps.len() - j,
{
    let l1 = level + 1;
    let key = ps[j].0;
    let v = ps[j].1;
    let pt = pair_text(ps[j], l1);
    let st = base + member_start(ps, level, j);
    let en = st + pt.len();
    let e1 = st + escape_key(key).len() + 2;
    lemma_member_layout(s, base, ps, level, j);
    lemma_depth_pairs(ps, j);
    assert(printable(v));
    let acc2 = ps.subrange(0, j).push((key, v));
    assert(acc2 =~= ps.subrange(0, j + 1));
    if j + 1 < ps.len() {
        let next = pair_text(ps[j + 1], l1);
        lemma_text_split(s, en, seq![','], seq!['\n'] + indent(l1) + next);
        lemma_text_char(s, en, seq![','], 0);
        lemma_pair_round_trip(s, st, key, v, l1, strict);
        assert(skip_ws(s, en) == en);
        lemma_member_step(s, st, ps.subrange(0, j), key, e1, v, en, en, strict);
        lemma_skip_break(s, en + 1, l1, next);
        lemma_members_round_trip(s, base, ps, level, j + 1, strict);
    } else {
        assert(ps.subrange(0, j + 1) =~= ps);
        let tail = seq!['\n'] + indent(level) + seq!['}'];
        lemma_text_char(s, en, tail, 0);
        lemma_pair_round_trip(s, st, key, v, l1, strict);
        lemma_skip_break(s, en, level, seq!['}']);
        lemma_member_step(s, st, ps.subrange(0, j), key, e1, v, en, en + 1 + 2 * level, strict);
    }
}

/// Printing a tree that holds no string value and whose numbers are well
/// formed, then parsing the text, gives the tree
/// back; printing the parsed tree again gives the same text.
pub proof fn lemma_print_parse_round_trip(t: JsonTree)
    requires
        printable(t),
    ensures
        parse_document(render(t, 0)) == Ok::<JsonTree, JsonError>(t),
        render(parse_document(render(t, 0))->Ok_0, 0) == render(t, 0),
{
    let s = render(t, 0);
    assert(s.subrange(0, s.len() as int) =~= s);
    lemma_value_round_trip(s, 0, t, 0, false);
    lemma_value_round_trip(s, 0, t, 0, true);
    assert(skip_ws(s, s.len() as int) == s.len());
}

/// Empty containers print on one line at every level, as `{}` and `[]`, and
/// that text parses back to the empty container.
pub proof fn lemma_empty_containers(level: nat)
    ensures
        render(JsonTree::Obj(Seq::empty()), level) == seq!['{', '}'],
        render(JsonTree::Arr(Seq::empty()), level) == seq!['[', ']'],
        parse_document(seq!['{', '}']) == Ok::<JsonTree, JsonError>(JsonTree::Obj(Seq::empty())),
        parse_document(seq!['[', ']']) == Ok::<JsonTree, JsonError>(JsonTree::Arr(Seq::empty())),
{
    let o = JsonTree::Obj(Seq::<(Seq<char>, JsonTree)>::empty());
    let a = JsonTree::Arr(Seq::<JsonTree>::empty());
    assert(printable(o));
    assert(printable(a));
    lemma_print_parse_round_trip(o);
    lemma_print_parse_round_trip(a);
}

/// The standard compact serialization of a tree: no whitespace, strings and
/// keys quoted and escaped as the printer escapes keys, numbers as the
/// printer writes them.
pub open spec fn compact(t: JsonTree) -> Seq<char>
    decreases t,
{
    match t {
        JsonTree::Str(x) => seq!['"'] + escape_key(x) + seq!['"'],
        JsonTree::Num(negative, d, point) => render_number(negative, d, point),
        JsonTree::Bool(b) => if b {
            seq!['t', 'r', 'u', 'e']
        } else {
            seq!['f', 'a', 'l', 's', 'e']
        },
        JsonTree::Null => seq!['n', 'u', 'l', 'l'],
        JsonTree::Arr(xs) => seq!['['] + compact_items(xs) + seq![']'],
        JsonTree::Obj(ps) => seq!['{'] + compact_pairs(ps) + seq!['}'],
    }
}

pub open spec fn compact_items(xs: Seq<JsonTree>) -> Seq<char>
    decreases xs,
{
    if xs.len() == 0 {
        Seq::empty()
    } else if xs.len() == 1 {
        compact(xs[0])
    } else {
        compact_items(xs.subrange(0, xs.len() - 1)) + seq![','] + compact(xs[xs.len() - 1])
    }
}

pub open spec fn compact_pairs(ps: Seq<(Seq<char>, JsonTree)>) -> Seq<char>
    decreases ps,
{
    if ps.len() == 0 {
        Seq::empty()
    } else {
        let p = ps[ps.len() - 1];
        let last = seq!['"'] + escape_key(p.0) + seq!['"', ':'] + compact(p.1);
        if ps.len() == 1 {
            last
        } else {
            compact_pairs(ps.subrange(0, ps.len() - 1)) + seq![','] + last
        }
    }
}

proof fn lemma_compact_head(t: JsonTree)
    requires
        numbers_wf(t),
    ensures
        compact(t).len() > 0,
        value_start(compact(t)[0]) || compact(t)[0] == '"',
        t is Num ==> compact(t)[0] == '-' || is_digit(compact(t)[0]),
{
    match t {
        JsonTree::Num(negative, d, point) => {
            lemma_render_head(t, 0);
        },
        _ => {},
    }
}

proof fn lemma_compact_items_prefix(xs: Seq<JsonTree>, j: int)
    requires
        0 <= j <= xs.len(),
    ensures
        compact_items(xs.subrange(0, j)).len() <= compact_items(xs).len(),
        compact_items(xs).subrange(0, compact_items(xs.subrange(0, j)).len() as int)
            == compact_items(xs.subrange(0, j)),
    decreases xs.len() - j,
{
    let a = compact_items(xs.subrange(0, j));
    if j == xs.len() {
        assert(xs.subrange(0, j) =~= xs);
        assert(a.subrange(0, a.len() as int) =~= a);
    } else {
        lemma_compact_items_prefix(xs, j + 1);
        let ys = xs.subrange(0, j + 1);
        assert(ys.subrange(0, j) =~= xs.subrange(0, j));
        let b = compact_items(ys);
        let full = compact_items(xs);
        assert(b.subrange(0, a.len() as int) =~= a);
        assert(full.subrange(0, a.len() as int) =~= b.subrange(0, a.len() as int));
    }
}

proof fn lemma_compact_pairs_prefix(ps: Seq<(Seq<char>, JsonTree)>, j: int)
    requires
        0 <= j <= ps.len(),
    ensures
        compact_pairs(ps.subrange(0, j)).len() <= compact_pairs(ps).len(),
        compact_pairs(ps).subrange(0, compact_pairs(ps.subrange(0, j)).len() as int)
            == compact_pairs(ps.subrange(0, j)),
    decreases ps.len() - j,
{
    let a = compact_pairs(ps.subrange(0, j));
    if j == ps.len() {
        assert(ps.subrange(0, j) =~= ps);
        assert(a.subrange(0, a.len() as int) =~= a);
    } else {
        lemma_compact_pairs_prefix(ps, j + 1);
        let ys = ps.subrange(0, j + 1);
        assert(ys.subrange(0, j) =~= ps.subrange(0, j));
        let b = compact_pairs(ys);
        let full = compact_pairs(ps);
        assert(b.subrange(0, a.len() as int) =~= a);
        assert(full.subrange(0, a.len() as int) =~= b.subrange(0, a.len() as int));
    }
}

/// A compact member: `"key":value`.
pub open spec fn compact_pair(p: (Seq<char>, JsonTree)) -> Seq<char> {
    seq!['"'] + escape_key(p.0) + seq!['"', ':'] + compact(p.1)
}

proof fn lemma_compact_element_layout(s: Seq<char>, base: int, xs: Seq<JsonTree>, j: int)
    requires
        0 <= j < xs.len(),
        text_at(s, base, compact_items(xs) + seq![']']),
    ensures
        ({
            let st = base + compact_items(xs.subrange(0, j)).len() + (if j > 0 { 1int } else { 0int });
            let en = st + compact(xs[j]).len();
            &&& text_at(s, st, compact(xs[j]))
            &&& j + 1 < xs.len() ==> text_at(s, en, seq![','] + compact(xs[j + 1]))
            &&& j + 1 < xs.len() ==> base + compact_items(xs.subrange(0, j + 1)).len() + 1 == en + 1
            &&& j + 1 == xs.len() ==> text_at(s, en, seq![']'])
            &&& j + 1 == xs.len() ==> en == base + compact_items(xs).len()
        }),
{
    let items = compact_items(xs);
    let pj = compact_items(xs.subrange(0, j));
    let ys = xs.subrange(0, j + 1);
    assert(ys.subrange(0, j) =~= xs.subrange(0, j));
    assert(ys[j] == xs[j]);
    let sep: Seq<char> = if j > 0 { seq![','] } else { Seq::empty() };
    let pj1 = compact_items(ys);
    assert(pj1 =~= pj + sep + compact(xs[j]));
    lemma_compact_items_prefix(xs, j + 1);
    lemma_text_split(s, base, items, seq![']']);
    lemma_text_prefix(s, base, items, pj1.len() as int);
    lemma_text_split(s, base, pj + sep, compact(xs[j]));
    if j + 1 < xs.len() {
        let zs = xs.subrange(0, j + 2);
        assert(zs.subrange(0, j + 1) =~= ys);
        assert(zs[j + 1] == xs[j + 1]);
        let pj2 = compact_items(zs);
        assert(pj2 =~= pj1 + (seq![','] + compact(xs[j + 1])));
        lemma_compact_items_prefix(xs, j + 2);
        lemma_text_prefix(s, base, items, pj2.len() as int);
        lemma_text_split(s, base, pj1, seq![','] + compact(xs[j + 1]));
    } else {
        assert(ys =~= xs);
    }
}

proof fn lemma_compact_member_layout(s: Seq<char>, base: int, ps: Seq<(Seq<char>, JsonTree)>, j: int)
    requires
        0 <= j < ps.len(),
        text_at(s, base, compact_pairs(ps) + seq!['}']),
    ensures
        ({
            let st = base + compact_pairs(ps.subrange(0, j)).len() + (if j > 0 { 1int } else { 0int });
            let en = st + compact_pair(ps[j]).len();
            &&& text_at(s, st, compact_pair(ps[j]))
            &&& j + 1 < ps.len() ==> text_at(s, en, seq![','] + compact_pair(ps[j + 1]))
            &&& j + 1 < ps.len() ==> base + compact_pairs(ps.subrange(0, j + 1)).len() + 1 == en + 1
            &&& j + 1 == ps.len() ==> text_at(s, en, seq!['}'])
            &&& j + 1 == ps.len() ==> en == base + compact_pairs(ps).len()
        }),
{
    let items = compact_pairs(ps);
    let pj = compact_pairs(ps.subrange(0, j));
    let ys = ps.subrange(0, j + 1);
    assert(ys.subrange(0, j) =~= ps.subrange(0, j));
    assert(ys[j] == ps[j]);
    let sep: Seq<char> = if j > 0 { seq![','] } else { Seq::empty() };
    let pj1 = compact_pairs(ys);
    assert(pj1 =~= pj + sep + compact_pair(ps[j]));
    lemma_compact_pairs_prefix(ps, j + 1);
    lemma_text_split(s, base, items, seq!['}']);
    lemma_text_prefix(s, base, items, pj1.len() as int);
    lemma_text_split(s, base, pj + sep, compact_pair(ps[j]));
    if j + 1 < ps.len() {
        let zs = ps.subrange(0, j + 2);
        assert(zs.subrange(0, j + 1) =~= ys);
        assert(zs[j + 1] == ps[j + 1]);
        let pj2 = compact_pairs(zs);
        assert(pj2 =~= pj1 + (seq![','] + compact_pair(ps[j + 1])));
        lemma_compact_pairs_prefix(ps, j + 2);
        lemma_text_prefix(s, base, items, pj2.len() as int);
        lemma_text_split(s, base, pj1, seq![','] + compact_pair(ps[j + 1]));
    } else {
        assert(ys =~= ps);
    }
}

#[verifier::rlimit(100)]
#[verifier::spinoff_prover]
proof fn lemma_compact_value(s: Seq<char>, p: int, t: JsonTree, strict: bool)
    requires
        numbers_wf(t),
        text_at(s, p, compact(t)),
        ends_number(s, p + compact(t).len()),
    ensures
        parse_value(s, p, strict) == Ok::<(JsonTree, int), JsonError>((t, p + compact(t).len())),
    decreases depth(t), 2int, 0int,
{
    let r = compact(t);
    lemma_compact_head(t);
    lemma_text_char(s, p, r, 0);
    assert(skip_ws(s, p) == p);
    match t {
        JsonTree::Num(negative, d, point) => {
            lemma_number_round_trip(s, p, negative, d, point, strict);
        },
        JsonTree::Str(x) => {
            assert(r =~= seq!['"'] + (escape_key(x) + seq!['"']));
            lemma_text_split(s, p, seq!['"'], escape_key(x) + seq!['"']);
            lemma_escaped_string(s, p + 1, x, Seq::empty(), strict);
            assert(Seq::<char>::empty() + x =~= x);
        },
        JsonTree::Arr(xs) => {
            lemma_compact_array(s, p, t, strict);
        },
        JsonTree::Obj(ps) => {
            lemma_compact_object(s, p, t, strict);
        },
        _ => {
            assert(s.subrange(p, p + r.len()) == r);
        },
    }
}

#[verifier::rlimit(100)]
#[verifier::spinoff_prover]
proof fn lemma_compact_array(s: Seq<char>, p: int, t: JsonTree, strict: bool)
    requires
        numbers_wf(t),
        t is Arr,
        text_at(s, p, compact(t)),
        skip_ws(s, p) == p,
    ensures
        parse_value(s, p, strict) == Ok::<(JsonTree, int), JsonError>((t, p + compact(t).len())),
    decreases depth(t), 1int, 0int,
{
    let r = compact(t);
    let xs = t->Arr_0;
    lemma_text_char(s, p, r, 0);
    lemma_open_array(s, p, strict);
    lemma_text_char(s, p, r, 1);
    assert(r =~= seq!['['] + (compact_items(xs) + seq![']']));
    lemma_text_split(s, p, seq!['['], compact_items(xs) + seq![']']);
    if xs.len() == 0 {
        assert(skip_ws(s, p + 1) == p + 1);
        assert(xs =~= Seq::<JsonTree>::empty());
    } else {
        lemma_compact_element_layout(s, p + 1, xs, 0);
        assert(xs.subrange(0, 0) =~= Seq::<JsonTree>::empty());
        assert(compact_items(xs.subrange(0, 0)).len() == 0);
        assert(numbers_wf(xs[0]));
        lemma_compact_head(xs[0]);
        lemma_text_char(s, p + 1, compact(xs[0]), 0);
        assert(skip_ws(s, p + 1) == p + 1);
        lemma_compact_elements(s, p + 1, xs, 0, strict);
    }
}

#[verifier::rlimit(100)]
#[verifier::spinoff_prover]
proof fn lemma_compact_object(s: Seq<char>, p: int, t: JsonTree, strict: bool)
    requires
        numbers_wf(t),
        t is Obj,
        text_at(s, p, compact(t)),
        skip_ws(s, p) == p,
    ensures
        parse_value(s, p, strict) == Ok::<(JsonTree, int), JsonError>((t, p + compact(t).len())),
    decreases depth(t), 1int, 0int,
{
    let r = compact(t);
    let ps = t->Obj_0;
    lemma_text_char(s, p, r, 0);
    lemma_open_object(s, p, strict);
    lemma_text_char(s, p, r, 1);
    assert(r =~= seq!['{'] + (compact_pairs(ps) + seq!['}']));
    lemma_text_split(s, p, seq!['{'], compact_pairs(ps) + seq!['}']);
    if ps.len() == 0 {
        assert(skip_ws(s, p + 1) == p + 1);
        assert(ps =~= Seq::<(Seq<char>, JsonTree)>::empty());
    } else {
        lemma_compact_member_layout(s, p + 1, ps, 0);
        assert(ps.subrange(0, 0) =~= Seq::<(Seq<char>, JsonTree)>::empty());
        assert(compact_pairs(ps.subrange(0, 0)).len() == 0);
        lemma_text_char(s, p + 1, compact_pair(ps[0]), 0);
        assert(skip_ws(s, p + 1) == p + 1);
        lemma_compact_members(s, p + 1, ps, 0, strict);
    }
}

#[verifier::rlimit(100)]
#[verifier::spinoff_prover]
proof fn lemma_compact_elements(s: Seq<char>, base: int, xs: Seq<JsonTree>, j: int, strict: bool)
    requires
        forall|i: int| 0 <= i < xs.len() ==> numbers_wf(#[trigger] xs[i]),
        0 <= j < xs.len(),
        text_at(s, base, compact_items(xs) + seq![']']),
    ensures
        parse_elements(
            s,
            base + compact_items(xs.subrange(0, j)).len() + (if j > 0 { 1int } else { 0int }),
            xs.subrange(0, j),
            strict,
        ) == Ok::<(JsonTree, int), JsonError>((JsonTree::Arr(xs), base + compact_items(xs).len() + 1)),
    decreases depth_items(xs) + 1, 0int, xs.len() - j,
{
    let st = base + compact_items(xs.subrange(0, j)).len() + (if j > 0 { 1int } else { 0int });
    let en = st + compact(xs[j]).len();
    lemma_compact_element_layout(s, base, xs, j);
    lemma_depth_items(xs, j);
    assert(numbers_wf(xs[j]));
    let acc2 = xs.subrange(0, j).push(xs[j]);
    assert(acc2 =~= xs.subrange(0, j + 1));
    if j + 1 < xs.len() {
        lemma_text_split(s, en, seq![','], compact(xs[j + 1]));
        lemma_text_char(s, en, seq![','], 0);
        lemma_compact_value(s, st, xs[j], strict);
        assert(skip_ws(s, en) == en);
        assert(numbers_wf(xs[j + 1]));
        lemma_compact_head(xs[j + 1]);
        lemma_text_char(s, en + 1, compact(xs[j + 1]), 0);
        assert(skip_ws(s, en + 1) == en + 1);
        lemma_compact_elements(s, base, xs, j + 1, strict);
    } else {
        assert(xs.subrange(0, j + 1) =~= xs);
        lemma_text_char(s, en, seq![']'], 0);
        lemma_compact_value(s, st, xs[j], strict);
        assert(skip_ws(s, en) == en);
    }
}

#[verifier::rlimit(100)]
#[verifier::spinoff_prover]
proof fn lemma_compact_pair(s: Seq<char>, st: int, key: Seq<char>, v: JsonTree, strict: bool)
    requires
        numbers_wf(v),
        text_at(s, st, compact_pair((key, v))),
        ends_number(s, st + compact_pair((key, v)).len()),
    ensures
        s[st] == '"',
        string_at(s, st, strict) == Ok::<(Seq<char>, int), JsonError>(
            (key, st + escape_key(key).len() + 2),
        ),
        skip_ws(s, st + escape_key(key).len() + 2) == st + escape_key(key).len() + 2,
        s[st + escape_key(key).len() + 2] == ':',
        parse_value(s, st + escape_key(key).len() + 3, strict) == Ok::<(JsonTree, int), JsonError>(
            (v, st + compact_pair((key, v)).len()),
        ),
    decreases depth(v), 3int, 0int,
{
    let xj = compact(v);
    let ek = escape_key(key);
    let pt = compact_pair((key, v));
    assert(pt =~= seq!['"'] + ((ek + seq!['"']) + (seq![':'] + xj)));
    lemma_text_split(s, st, seq!['"'], (ek + seq!['"']) + (seq![':'] + xj));
    lemma_text_split(s, st + 1, ek + seq!['"'], seq![':'] + xj);
    let e1 = st + 1 + ek.len() + 1;
    lemma_text_split(s, e1, seq![':'], xj);
    lemma_text_char(s, st, seq!['"'], 0);
    lemma_text_char(s, e1, seq![':'], 0);
    lemma_escaped_string(s, st + 1, key, Seq::empty(), strict);
    assert(Seq::<char>::empty() + key =~= key);
    assert(skip_ws(s, e1) == e1);
    lemma_compact_value(s, e1 + 1, v, strict);
}

#[verifier::rlimit(100)]
#[verifier::spinoff_prover]
proof fn lemma_compact_members(
    s: Seq<char>,
    base: int,
    ps: Seq<(Seq<char>, JsonTree)>,
    j: int,
    strict: bool,
)
    requires
        forall|i: int| 0 <= i < ps.len() ==> numbers_wf(#[trigger] ps[i].1),
        0 <= j < ps.len(),
        text_at(s, base, compact_pairs(ps) + seq!['}']),
    ensures
        parse_members(
            s,
            base + compact_pairs(ps.subrange(0, j)).len() + (if j > 0 { 1int } else { 0int }),
            ps.subrange(0, j),
            strict,
        ) == Ok::<(JsonTree, int), JsonError>((JsonTree::Obj(ps), base + compact_pairs(ps).len() + 1)),
    decreases depth_pairs(ps) + 1, 0int, ps.len() - j,
{
    let key = ps[j].0;
    let v = ps[j].1;
    let st = base + compact_pairs(ps.subrange(0, j)).len() + (if j > 0 { 1int } else { 0int });
    let en = st + compact_pair(ps[j]).len();
    let e1 = st + escape_key(key).len() + 2;
    lemma_compact_member_layout(s, base, ps, j);
    lemma_depth_pairs(ps, j);
    assert(numbers_wf(v));
    assert(ps[j] == (key, v));
    let acc2 = ps.subrange(0, j).push((key, v));
    assert(acc2 =~= ps.subrange(0, j + 1));
    if j + 1 < ps.len() {
        lemma_text_split(s, en, seq![','], compact_pair(ps[j + 1]));
        lemma_text_char(s, en, seq![','], 0);
        lemma_compact_pair(s, st, key, v, strict);
        assert(skip_ws(s, en) == en);
        lemma_member_step(s, st, ps.subrange(0, j), key, e1, v, en, en, strict);
        lemma_text_char(s, en + 1, compact_pair(ps[j + 1]), 0);
        assert(skip_ws(s, en + 1) == en + 1);
        lemma_compact_members(s, base, ps, j + 1, strict);
    } else {
        assert(ps.subrange(0, j + 1) =~= ps);
        lemma_text_char(s, en, seq!['}'], 0);
        lemma_compact_pair(s, st, key, v, strict);
        assert(skip_ws(s, en) == en);
        lemma_member_step(s, st, ps.subrange(0, j), key, e1, v, en, en, strict);
    }
}

/// Parsing the standard compact serialization of a tree whose numbers are
/// well formed gives the tree back, strings and keys of any content
/// included.
pub proof fn lemma_parse_compact(t: JsonTree)
    requires
        numbers_wf(t),
    ensures
        parse_document(compact(t)) == Ok::<JsonTree, JsonError>(t),
{
    let s = compact(t);
    assert(s.subrange(0, s.len() as int) =~= s);
    lemma_compact_value(s, 0, t, false);
    lemma_compact_value(s, 0, t, true);
    assert(skip_ws(s, s.len() as int) == s.len());
}

} // verus!
