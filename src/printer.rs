use vstd::prelude::*;
use crate::text::string_from_chars;
use crate::value::{
    depth, lemma_depth_items, lemma_depth_pairs, lemma_view_items, lemma_view_pairs, view_items,
    view_pairs, view_value, JsonNumber, JsonTree, JsonValue,
};

verus! {

/// Two spaces for each level of nesting.
pub open spec fn indent(level: nat) -> Seq<char> {
    Seq::new(2 * level, |i: int| ' ')
}

pub open spec fn zeros(n: nat) -> Seq<char> {
    Seq::new(n, |i: int| '0')
}

/// The character of a decimal digit.
pub open spec fn digit_char(d: u8) -> char {
    ((d % 10) + 48) as u8 as char
}

pub open spec fn digit_chars(d: Seq<u8>) -> Seq<char> {
    Seq::new(d.len(), |i: int| digit_char(d[i]))
}

/// A number in plain positional notation, without exponent and without
/// trailing zeros after the decimal point: `100`, `3.14`, `0.0015`, `-0`.
pub open spec fn render_number(negative: bool, d: Seq<u8>, point: int) -> Seq<char> {
    let sign = if negative { seq!['-'] } else { Seq::empty() };
    let body = if d.len() == 0 {
        seq!['0']
    } else if point >= d.len() {
        digit_chars(d) + zeros((point - d.len()) as nat)
    } else if point > 0 {
        digit_chars(d.subrange(0, point)) + seq!['.'] + digit_chars(d.subrange(point, d.len() as int))
    } else {
        seq!['0', '.'] + zeros((-point) as nat) + digit_chars(d)
    };
    sign + body
}

/// A hexadecimal digit, for `n` below sixteen.
pub open spec fn hex_char(n: int) -> char {
    if n < 10 {
        (n + 48) as u8 as char
    } else {
        (n + 87) as u8 as char
    }
}

/// How a key character is written between quotes: a quote and a backslash
/// take a backslash, a control character is written `\u00XX`.
#[verifier::opaque]
pub open spec fn escape_char(c: char) -> Seq<char> {
    if c == '"' {
        seq!['\\', '"']
    } else if c == '\\' {
        seq!['\\', '\\']
    } else if ' ' > c {
        seq!['\\', 'u', '0', '0', hex_char((c as int) / 16), hex_char((c as int) % 16)]
    } else {
        seq![c]
    }
}

/// A key as written between quotes.
#[verifier::opaque]
pub open spec fn escape_key(k: Seq<char>) -> Seq<char>
    decreases k.len(),
{
    if k.len() == 0 {
        Seq::empty()
    } else {
        escape_char(k[0]) + escape_key(k.subrange(1, k.len() as int))
    }
}

pub proof fn lemma_escape_key_push(k: Seq<char>, c: char)
    ensures
        escape_key(k.push(c)) == escape_key(k) + escape_char(c),
    decreases k.len(),
{
    reveal(escape_key);
    if k.len() == 0 {
        let w = k.push(c);
        assert(w.subrange(1, 1) =~= Seq::<char>::empty());
        assert(escape_key(w.subrange(1, 1)) == Seq::<char>::empty());
        assert(w[0] == c);
        assert(escape_key(w) == escape_char(c) + Seq::<char>::empty());
        assert(escape_key(w) =~= escape_char(c));
        assert(escape_key(k) == Seq::<char>::empty());
        assert(escape_key(k) + escape_char(c) =~= escape_char(c));
    } else {
        let t = k.subrange(1, k.len() as int);
        lemma_escape_key_push(t, c);
        assert(k.push(c).subrange(1, k.len() + 1int) =~= t.push(c));
        assert(k.push(c)[0] == k[0]);
        assert(escape_key(k.push(c)) =~= escape_key(k) + escape_char(c));
    }
}

/// The text of a tree at a nesting level. Containers put each entry on a line
/// of its own, indented one level deeper, and close at the level they opened
/// at; empty containers stay on one line. Keys are quoted and escaped; string
/// values are written as their decoded text.
pub open spec fn render(t: JsonTree, level: nat) -> Seq<char>
    decreases t,
{
    match t {
        JsonTree::Str(s) => s,
        JsonTree::Num(negative, d, point) => render_number(negative, d, point),
        JsonTree::Bool(b) => if b {
            seq!['t', 'r', 'u', 'e']
        } else {
            seq!['f', 'a', 'l', 's', 'e']
        },
        JsonTree::Null => seq!['n', 'u', 'l', 'l'],
        JsonTree::Arr(xs) => if xs.len() == 0 {
            seq!['[', ']']
        } else {
            seq!['[', '\n'] + render_items(xs, level + 1) + seq!['\n'] + indent(level) + seq![']']
        },
        JsonTree::Obj(ps) => if ps.len() == 0 {
            seq!['{', '}']
        } else {
            seq!['{', '\n'] + render_pairs(ps, level + 1) + seq!['\n'] + indent(level) + seq!['}']
        },
    }
}

/// Array elements, one per line at `level`, separated by `,` and a newline.
pub open spec fn render_items(xs: Seq<JsonTree>, level: nat) -> Seq<char>
    decreases xs,
{
    if xs.len() == 0 {
        Seq::empty()
    } else {
        let last = indent(level) + render(xs[xs.len() - 1], level);
        if xs.len() == 1 {
            last
        } else {
            render_items(xs.subrange(0, xs.len() - 1), level) + seq![',', '\n'] + last
        }
    }
}

/// Object members as `"key": value`, one per line at `level`, separated by
/// `,` and a newline.
pub open spec fn render_pairs(ps: Seq<(Seq<char>, JsonTree)>, level: nat) -> Seq<char>
    decreases ps,
{
    if ps.len() == 0 {
        Seq::empty()
    } else {
        let p = ps[ps.len() - 1];
        let last = indent(level) + seq!['"'] + escape_key(p.0) + seq!['"', ':', ' '] + render(
            p.1,
            level,
        );
        if ps.len() == 1 {
            last
        } else {
            render_pairs(ps.subrange(0, ps.len() - 1), level) + seq![',', '\n'] + last
        }
    }
}

fn push_indent(out: &mut Vec<char>, level: usize)
    requires
        2 * level <= usize::MAX,
    ensures
        final(out)@ == old(out)@ + indent(level as nat),
{
    let n: usize = 2 * level;
    let mut i: usize = 0;
    while i < n
        invariant
            i <= n,
            n == 2 * level,
            out@ == old(out)@ + Seq::new(i as nat, |k: int| ' '),
        decreases n - i,
    {
        out.push(' ');
        i += 1;
        assert(out@ =~= old(out)@ + Seq::new(i as nat, |k: int| ' '));
    }
    assert(out@ =~= old(out)@ + indent(level as nat));
}

fn push_zeros(out: &mut Vec<char>, n: u64)
    ensures
        final(out)@ == old(out)@ + zeros(n as nat),
{
    let mut i: u64 = 0;
    while i < n
        invariant
            i <= n,
            out@ == old(out)@ + zeros(i as nat),
        decreases n - i,
    {
        out.push('0');
        i += 1;
        assert(out@ =~= old(out)@ + zeros(i as nat));
    }
}

/// Appends the characters of `d[lo..hi]`.
fn push_digits(out: &mut Vec<char>, d: &Vec<u8>, lo: usize, hi: usize)
    requires
        lo <= hi <= d@.len(),
    ensures
        final(out)@ == old(out)@ + digit_chars(d@.subrange(lo as int, hi as int)),
{
    let mut i: usize = lo;
    while i < hi
        invariant
            lo <= i <= hi <= d@.len(),
            out@ == old(out)@ + digit_chars(d@.subrange(lo as int, i as int)),
        decreases hi - i,
    {
        let c: char = ((d[i] % 10) + 48) as char;
        out.push(c);
        i += 1;
        assert(out@ =~= old(out)@ + digit_chars(d@.subrange(lo as int, i as int)));
    }
}

fn write_number(n: &JsonNumber, out: &mut Vec<char>)
    ensures
        final(out)@ == old(out)@ + render_number(n.negative, n.digits@, n.point as int),
{
    let ghost o0 = out@;
    let ghost d = n.digits@;
    if n.negative {
        out.push('-');
    }
    let ghost sign: Seq<char> = if n.negative { seq!['-'] } else { Seq::empty() };
    assert(out@ =~= o0 + sign);
    let len = n.digits.len();
    if len == 0 {
        out.push('0');
    } else if n.point >= 0 && n.point as u64 >= len as u64 {
        push_digits(out, &n.digits, 0, len);
        push_zeros(out, n.point as u64 - len as u64);
        assert(d.subrange(0, len as int) =~= d);
    } else if n.point > 0 {
        let p = n.point as usize;
        push_digits(out, &n.digits, 0, p);
        out.push('.');
        push_digits(out, &n.digits, p, len);
    } else {
        out.push('0');
        out.push('.');
        let z: u64 = if n.point == i64::MIN {
            (i64::MAX as u64) + 1
        } else {
            (-n.point) as u64
        };
        push_zeros(out, z);
        push_digits(out, &n.digits, 0, len);
        assert(d.subrange(0, len as int) =~= d);
    }
    assert(out@ =~= o0 + render_number(n.negative, d, n.point as int));
}

fn hex_digit(n: u32) -> (c: char)
    requires
        n < 16,
    ensures
        c == hex_char(n as int),
{
    if n < 10 {
        ((n + 48) as u8) as char
    } else {
        ((n + 87) as u8) as char
    }
}

fn push_key_char(out: &mut Vec<char>, c: char)
    ensures
        final(out)@ == old(out)@ + escape_char(c),
{
    reveal(escape_char);
    let ghost o0 = out@;
    if c == '"' {
        out.push('\\');
        out.push('"');
    } else if c == '\\' {
        out.push('\\');
        out.push('\\');
    } else if ' ' > c {
        let n = c as u32;
        assert(n as int == c as int);
        out.push('\\');
        out.push('u');
        out.push('0');
        out.push('0');
        out.push(hex_digit(n / 16));
        out.push(hex_digit(n % 16));
    } else {
        out.push(c);
    }
    assert(out@ =~= o0 + escape_char(c));
}

/// Appends a key as written between quotes.
fn write_key(out: &mut Vec<char>, k: &String)
    ensures
        final(out)@ == old(out)@ + escape_key(k@),
{
    let key = crate::text::chars_of(k.as_str());
    let mut j: usize = 0;
    let ghost o2 = out@;
    assert(key@.subrange(0, 0) =~= Seq::<char>::empty());
    assert(escape_key(Seq::<char>::empty()) == Seq::<char>::empty()) by {
        reveal(escape_key);
    }
    while j < key.len()
        invariant
            j <= key@.len(),
            out@ == o2 + escape_key(key@.subrange(0, j as int)),
        decreases key@.len() - j,
    {
        push_key_char(out, key[j]);
        proof {
            lemma_escape_key_push(key@.subrange(0, j as int), key@[j as int]);
            assert(key@.subrange(0, j as int).push(key@[j as int]) =~= key@.subrange(
                0,
                j + 1,
            ));
        }
        j += 1;
        assert(out@ =~= o2 + escape_key(key@.subrange(0, j as int)));
    }
    assert(key@.subrange(0, key@.len() as int) =~= key@);
}

fn write_value(v: &JsonValue, level: usize, out: &mut Vec<char>)
    requires
        level + depth(v@) + 1 <= usize::MAX / 2,
    ensures
        final(out)@ == old(out)@ + render(v@, level as nat),
    decreases depth(v@),
{
    let ghost o0 = out@;
    match v {
        JsonValue::String(s) => {
            let cs = crate::text::chars_of(s.as_str());
            let mut i: usize = 0;
            while i < cs.len()
                invariant
                    i <= cs@.len(),
                    out@ == o0 + cs@.subrange(0, i as int),
                decreases cs@.len() - i,
            {
                out.push(cs[i]);
                i += 1;
                assert(out@ =~= o0 + cs@.subrange(0, i as int));
            }
            assert(cs@.subrange(0, cs@.len() as int) =~= cs@);
        },
        JsonValue::Number(n) => {
            write_number(n, out);
        },
        JsonValue::Boolean(b) => {
            if *b {
                out.push('t');
                out.push('r');
                out.push('u');
                out.push('e');
            } else {
                out.push('f');
                out.push('a');
                out.push('l');
                out.push('s');
                out.push('e');
            }
            assert(out@ =~= o0 + render(v@, level as nat));
        },
        JsonValue::Null => {
            out.push('n');
            out.push('u');
            out.push('l');
            out.push('l');
            assert(out@ =~= o0 + render(v@, level as nat));
        },
        JsonValue::Array(a) => {
            let ghost xs = view_items(a@);
            proof {
                lemma_view_items(a@);
            }
            if a.len() == 0 {
                out.push('[');
                out.push(']');
                assert(out@ =~= o0 + render(v@, level as nat));
            } else {
                out.push('[');
                out.push('\n');
                let ghost o1 = out@;
                let mut i: usize = 0;
                while i < a.len()
                    invariant
                        i <= a@.len(),
                        xs == view_items(a@),
                        xs.len() == a@.len(),
                        forall|k: int| 0 <= k < a@.len() ==> #[trigger] xs[k] == view_value(a@[k]),
                        v@ == JsonTree::Arr(xs),
                        level + depth(v@) + 1 <= usize::MAX / 2,
                        out@ == o1 + render_items(xs.subrange(0, i as int), (level + 1) as nat),
                    decreases a@.len() - i,
                {
                    let ghost before = out@;
                    if i > 0 {
                        out.push(',');
                        out.push('\n');
                    }
                    proof {
                        lemma_depth_items(xs, i as int);
                    }
                    push_indent(out, level + 1);
                    write_value(&a[i], level + 1, out);
                    proof {
                        let ys = xs.subrange(0, i + 1);
                        assert(ys.subrange(0, i as int) =~= xs.subrange(0, i as int));
                        assert(ys[i as int] == xs[i as int]);
                        if i == 0 {
                            assert(xs.subrange(0, 0) =~= Seq::<JsonTree>::empty());
                        }
                    }
                    i += 1;
                    assert(out@ =~= o1 + render_items(xs.subrange(0, i as int), (level + 1) as nat));
                }
                out.push('\n');
                push_indent(out, level);
                out.push(']');
                assert(xs.subrange(0, a@.len() as int) =~= xs);
                assert(out@ =~= o0 + render(v@, level as nat));
            }
        },
        JsonValue::Object(o) => {
            let ghost ps = view_pairs(o@);
            proof {
                lemma_view_pairs(o@);
            }
            if o.len() == 0 {
                out.push('{');
                out.push('}');
                assert(out@ =~= o0 + render(v@, level as nat));
            } else {
                out.push('{');
                out.push('\n');
                let ghost o1 = out@;
                let mut i: usize = 0;
                while i < o.len()
                    invariant
                        i <= o@.len(),
                        ps == view_pairs(o@),
                        ps.len() == o@.len(),
                        forall|k: int|
                            0 <= k < o@.len() ==> #[trigger] ps[k] == (o@[k].0@, view_value(o@[k].1)),
                        v@ == JsonTree::Obj(ps),
                        level + depth(v@) + 1 <= usize::MAX / 2,
                        out@ == o1 + render_pairs(ps.subrange(0, i as int), (level + 1) as nat),
                    decreases o@.len() - i,
                {
                    if i > 0 {
                        out.push(',');
                        out.push('\n');
                    }
                    proof {
                        lemma_depth_pairs(ps, i as int);
                    }
                    push_indent(out, level + 1);
                    out.push('"');
                    write_key(out, &o[i].0);
                    out.push('"');
                    out.push(':');
                    out.push(' ');
                    write_value(&o[i].1, level + 1, out);
                    proof {
                        let ys = ps.subrange(0, i + 1);
                        assert(ys.subrange(0, i as int) =~= ps.subrange(0, i as int));
                        assert(ys[i as int] == ps[i as int]);
                        if i == 0 {
                            assert(ps.subrange(0, 0) =~= Seq::<(Seq<char>, JsonTree)>::empty());
                        }
                    }
                    i += 1;
                    assert(out@ =~= o1 + render_pairs(ps.subrange(0, i as int), (level + 1) as nat));
                }
                out.push('\n');
                push_indent(out, level);
                out.push('}');
                assert(ps.subrange(0, o@.len() as int) =~= ps);
                assert(out@ =~= o0 + render(v@, level as nat));
            }
        },
    }
}

/// Renders a value as indented text, starting at nesting level `indent_level`
/// (the closing bracket of a container stands at that level). The text has no
/// trailing newline.
pub fn prettier_json(val: &JsonValue, indent_level: usize) -> (r: String)
    requires
        indent_level + depth(val@) + 1 <= usize::MAX / 2,
    ensures
        r@ == render(val@, indent_level as nat),
{
    let mut out: Vec<char> = Vec::new();
    write_value(val, indent_level, &mut out);
    assert(out@ =~= render(val@, indent_level as nat));
    string_from_chars(&out)
}

} // verus!
