use vstd::prelude::*;
use crate::error::{syntax_error, Expected, JsonError};
use crate::number::{number_at, parse_number};
use crate::scan::{is_digit, lemma_skip_ws, matches_at, skip_whitespace, skip_ws, starts_with_at};
use crate::string_lit::{lemma_string_rest_end, parse_string, string_at};
use crate::text::chars_of;
use crate::value::{
    depth, depth_items, depth_pairs, numbers_wf, view_items, view_pairs, view_value, JsonTree,
    JsonValue,
};

verus! {

/// The keyword `lit` at `s[q..]`, standing for `t`.
pub open spec fn literal_at(s: Seq<char>, q: int, lit: Seq<char>, t: JsonTree) -> Result<
    (JsonTree, int),
    JsonError,
> {
    if starts_with_at(s, q, lit) {
        Ok((t, q + lit.len()))
    } else {
        Err(syntax_error(q, Expected::Value))
    }
}

/// The value that starts at `s[p..]` after any whitespace, and the position
/// just past it.
pub open spec fn parse_value(s: Seq<char>, p: int, strict: bool) -> Result<(JsonTree, int), JsonError>
    decreases s.len() - p, 1int,
{
    proof {
        lemma_skip_ws(s, p);
    }
    let q = skip_ws(s, p);
    if !(0 <= q < s.len()) {
        Err(syntax_error(q, Expected::Value))
    } else {
        let c = s[q];
        if c == '{' {
            proof {
                lemma_skip_ws(s, q + 1);
            }
            let m = skip_ws(s, q + 1);
            if m < s.len() && s[m] == '}' {
                Ok((JsonTree::Obj(Seq::empty()), m + 1))
            } else {
                parse_members(s, m, Seq::empty(), strict)
            }
        } else if c == '[' {
            proof {
                lemma_skip_ws(s, q + 1);
            }
            let m = skip_ws(s, q + 1);
            if m < s.len() && s[m] == ']' {
                Ok((JsonTree::Arr(Seq::empty()), m + 1))
            } else {
                parse_elements(s, m, Seq::empty(), strict)
            }
        } else if c == '"' {
            match string_at(s, q, strict) {
                Ok((t, e)) => Ok((JsonTree::Str(t), e)),
                Err(e) => Err(e),
            }
        } else if c == '-' || is_digit(c) {
            number_at(s, q, strict)
        } else if c == 't' {
            literal_at(s, q, seq!['t', 'r', 'u', 'e'], JsonTree::Bool(true))
        } else if c == 'f' {
            literal_at(s, q, seq!['f', 'a', 'l', 's', 'e'], JsonTree::Bool(false))
        } else if c == 'n' {
            literal_at(s, q, seq!['n', 'u', 'l', 'l'], JsonTree::Null)
        } else {
            Err(syntax_error(q, Expected::Value))
        }
    }
}

/// The members of an object from `s[m..]` on, after the members `acc`, up to
/// and past the closing brace. (A value always ends after it starts; the test
/// `r < t` states so for the recursion.)
pub open spec fn parse_members(
    s: Seq<char>,
    m: int,
    acc: Seq<(Seq<char>, JsonTree)>,
    strict: bool,
) -> Result<
    (JsonTree, int),
    JsonError,
>
    decreases s.len() - m, 2int,
{
    if !(0 <= m < s.len() && s[m] == '"') {
        Err(syntax_error(m, Expected::Key))
    } else {
        proof {
            lemma_string_rest_end(s, m + 1, Seq::empty(), strict);
        }
        match string_at(s, m, strict) {
            Err(e) => Err(e),
            Ok((key, e1)) => {
                proof {
                    lemma_skip_ws(s, e1);
                }
                let r = skip_ws(s, e1);
                if !(r < s.len() && s[r] == ':') {
                    Err(syntax_error(r, Expected::Colon))
                } else {
                    match parse_value(s, r + 1, strict) {
                        Err(e) => Err(e),
                        Ok((v, e2)) => {
                            let t = skip_ws(s, e2);
                            let acc2 = acc.push((key, v));
                            proof {
                                lemma_skip_ws(s, t + 1);
                            }
                            if t < s.len() && s[t] == ',' && r < t {
                                parse_members(s, skip_ws(s, t + 1), acc2, strict)
                            } else if t < s.len() && s[t] == '}' {
                                Ok((JsonTree::Obj(acc2), t + 1))
                            } else {
                                Err(syntax_error(t, Expected::CommaOrBrace))
                            }
                        },
                    }
                }
            },
        }
    }
}

/// The elements of an array from `s[m..]` on, after the elements `acc`, up
/// to and past the closing bracket.
pub open spec fn parse_elements(s: Seq<char>, m: int, acc: Seq<JsonTree>, strict: bool) -> Result<
    (JsonTree, int),
    JsonError,
>
    decreases s.len() - m, 2int,
{
    match parse_value(s, m, strict) {
        Err(e) => Err(e),
        Ok((v, e)) => {
            let t = skip_ws(s, e);
            let acc2 = acc.push(v);
            proof {
                lemma_skip_ws(s, t + 1);
            }
            if t < s.len() && s[t] == ',' && m <= t {
                parse_elements(s, skip_ws(s, t + 1), acc2, strict)
            } else if t < s.len() && s[t] == ']' {
                Ok((JsonTree::Arr(acc2), t + 1))
            } else {
                Err(syntax_error(t, Expected::CommaOrBracket))
            }
        },
    }
}

/// One value with nothing but whitespace around it, read with or without
/// decode problems counting.
pub open spec fn parse_text(s: Seq<char>, strict: bool) -> Result<JsonTree, JsonError> {
    match parse_value(s, 0, strict) {
        Err(e) => Err(e),
        Ok((t, e)) => {
            let z = skip_ws(s, e);
            if z == s.len() {
                Ok(t)
            } else {
                Err(syntax_error(z, Expected::EndOfInput))
            }
        },
    }
}

/// A whole document. The grammar is checked over the whole text first: a
/// text outside it gives the first syntax error. Only a grammatical text is
/// then decoded, giving the tree or its first decode problem.
pub open spec fn parse_document(s: Seq<char>) -> Result<JsonTree, JsonError> {
    match parse_text(s, false) {
        Err(e) => Err(e),
        Ok(_) => parse_text(s, true),
    }
}

/// An executable result and a result of the grammar say the same.
pub open spec fn agrees(r: Result<(JsonValue, usize), JsonError>, t: Result<(JsonTree, int), JsonError>) -> bool {
    match r {
        Ok((v, e)) => t == Ok::<(JsonTree, int), JsonError>((v@, e as int)),
        Err(x) => t == Err::<(JsonTree, int), JsonError>(x),
    }
}

fn parse_value_at(s: &Vec<char>, p: usize, strict: bool) -> (r: Result<(JsonValue, usize), JsonError>)
    requires
        p <= s.len(),
    ensures
        agrees(r, parse_value(s@, p as int, strict)),
        !strict && r is Err ==> r->Err_0 is Syntax,
        r is Ok ==> p < r->Ok_0.1 <= s@.len(),
        r is Ok ==> numbers_wf(r->Ok_0.0@),
        r is Ok ==> depth(r->Ok_0.0@) <= r->Ok_0.1 - p,
    decreases s@.len() - p, 1int,
{
    proof {
        lemma_skip_ws(s@, p as int);
    }
    let q = skip_whitespace(s, p);
    if q >= s.len() {
        return Err(JsonError::Syntax { position: q, expected: Expected::Value });
    }
    let c = s[q];
    if c == '{' {
        let m = skip_whitespace(s, q + 1);
        if m < s.len() && s[m] == '}' {
            let v = JsonValue::Object(Vec::new());
            assert(v@ == JsonTree::Obj(Seq::empty())) by {
                assert(view_pairs(Seq::<(String, JsonValue)>::empty()) =~= Seq::empty());
            }
            Ok((v, m + 1))
        } else {
            parse_members_from(s, m, strict)
        }
    } else if c == '[' {
        let m = skip_whitespace(s, q + 1);
        if m < s.len() && s[m] == ']' {
            let v = JsonValue::Array(Vec::new());
            assert(v@ == JsonTree::Arr(Seq::empty())) by {
                assert(view_items(Seq::<JsonValue>::empty()) =~= Seq::empty());
            }
            Ok((v, m + 1))
        } else {
            parse_elements_from(s, m, strict)
        }
    } else if c == '"' {
        proof {
            lemma_string_rest_end(s@, q + 1, Seq::empty(), strict);
        }
        match parse_string(s, q, strict) {
            Ok((t, e)) => Ok((JsonValue::String(t), e)),
            Err(e) => Err(e),
        }
    } else if c == '-' || ('0' <= c && c <= '9') {
        match parse_number(s, q, strict) {
            Ok((n, e)) => Ok((JsonValue::Number(n), e)),
            Err(e) => Err(e),
        }
    } else if c == 't' {
        let lit = vec!['t', 'r', 'u', 'e'];
        if matches_at(s, q, lit.as_slice()) {
            Ok((JsonValue::Boolean(true), q + 4))
        } else {
            Err(JsonError::Syntax { position: q, expected: Expected::Value })
        }
    } else if c == 'f' {
        let lit = vec!['f', 'a', 'l', 's', 'e'];
        if matches_at(s, q, lit.as_slice()) {
            Ok((JsonValue::Boolean(false), q + 5))
        } else {
            Err(JsonError::Syntax { position: q, expected: Expected::Value })
        }
    } else if c == 'n' {
        let lit = vec!['n', 'u', 'l', 'l'];
        if matches_at(s, q, lit.as_slice()) {
            Ok((JsonValue::Null, q + 4))
        } else {
            Err(JsonError::Syntax { position: q, expected: Expected::Value })
        }
    } else {
        Err(JsonError::Syntax { position: q, expected: Expected::Value })
    }
}

fn parse_members_from(s: &Vec<char>, m: usize, strict: bool) -> (r: Result<(JsonValue, usize), JsonError>)
    requires
        0 < m <= s.len(),
    ensures
        agrees(r, parse_members(s@, m as int, Seq::empty(), strict)),
        !strict && r is Err ==> r->Err_0 is Syntax,
        r is Ok ==> m < r->Ok_0.1 <= s@.len(),
        r is Ok ==> numbers_wf(r->Ok_0.0@),
        r is Ok ==> depth(r->Ok_0.0@) <= r->Ok_0.1 - m,
    decreases s@.len() - m, 2int,
{
    let ghost sv = s@;
    let mut acc: Vec<(String, JsonValue)> = Vec::new();
    let mut mm: usize = m;
    assert(view_pairs(acc@) =~= Seq::empty());
    loop
        invariant
            m <= mm <= s@.len(),
            s@ == sv,
            parse_members(sv, m as int, Seq::empty(), strict) == parse_members(
                sv,
                mm as int,
                view_pairs(acc@),
                strict,
            ),
            forall|k: int| 0 <= k < view_pairs(acc@).len() ==> numbers_wf(#[trigger] view_pairs(acc@)[k].1),
            depth_pairs(view_pairs(acc@)) <= mm - m,
        decreases s@.len() - mm,
    {
        if !(mm < s.len() && s[mm] == '"') {
            return Err(JsonError::Syntax { position: mm, expected: Expected::Key });
        }
        proof {
            lemma_string_rest_end(sv, mm + 1, Seq::empty(), strict);
        }
        let (key, e1) = match parse_string(s, mm, strict) {
            Err(e) => {
                return Err(e);
            },
            Ok(x) => x,
        };
        let r = skip_whitespace(s, e1);
        if !(r < s.len() && s[r] == ':') {
            return Err(JsonError::Syntax { position: r, expected: Expected::Colon });
        }
        let (v, e2) = match parse_value_at(s, r + 1, strict) {
            Err(e) => {
                return Err(e);
            },
            Ok(x) => x,
        };
        let t = skip_whitespace(s, e2);
        let ghost old_view = view_pairs(acc@);
        let ghost entry = (key@, v@);
        let ghost before = acc@;
        acc.push((key, v));
        proof {
            assert(acc@.subrange(0, acc@.len() - 1) =~= before);
        }
        assert(view_pairs(acc@) == old_view.push(entry));
        assert(view_pairs(acc@).subrange(0, view_pairs(acc@).len() - 1) =~= old_view);
        assert(depth_pairs(view_pairs(acc@)) <= t - m);
        assert(forall|k: int| 0 <= k < view_pairs(acc@).len() ==> numbers_wf(#[trigger] view_pairs(acc@)[k].1)) by {
            assert forall|k: int| 0 <= k < view_pairs(acc@).len() implies numbers_wf(#[trigger] view_pairs(acc@)[k].1) by {
                if k < old_view.len() {
                    assert(view_pairs(acc@)[k] == old_view[k]);
                }
            }
        }
        if t < s.len() && s[t] == ',' {
            proof {
                lemma_skip_ws(sv, t + 1);
            }
            mm = skip_whitespace(s, t + 1);
        } else if t < s.len() && s[t] == '}' {
            return Ok((JsonValue::Object(acc), t + 1));
        } else {
            return Err(JsonError::Syntax { position: t, expected: Expected::CommaOrBrace });
        }
    }
}

fn parse_elements_from(s: &Vec<char>, m: usize, strict: bool) -> (r: Result<(JsonValue, usize), JsonError>)
    requires
        0 < m <= s.len(),
    ensures
        agrees(r, parse_elements(s@, m as int, Seq::empty(), strict)),
        !strict && r is Err ==> r->Err_0 is Syntax,
        r is Ok ==> m < r->Ok_0.1 <= s@.len(),
        r is Ok ==> numbers_wf(r->Ok_0.0@),
        r is Ok ==> depth(r->Ok_0.0@) <= r->Ok_0.1 - m,
    decreases s@.len() - m, 2int,
{
    let ghost sv = s@;
    let mut acc: Vec<JsonValue> = Vec::new();
    let mut mm: usize = m;
    assert(view_items(acc@) =~= Seq::empty());
    loop
        invariant
            m <= mm <= s@.len(),
            s@ == sv,
            parse_elements(sv, m as int, Seq::empty(), strict) == parse_elements(
                sv,
                mm as int,
                view_items(acc@),
                strict,
            ),
            forall|k: int| 0 <= k < view_items(acc@).len() ==> numbers_wf(#[trigger] view_items(acc@)[k]),
            depth_items(view_items(acc@)) <= mm - m,
        decreases s@.len() - mm,
    {
        let (v, e) = match parse_value_at(s, mm, strict) {
            Err(e) => {
                return Err(e);
            },
            Ok(x) => x,
        };
        let t = skip_whitespace(s, e);
        let ghost old_view = view_items(acc@);
        let ghost entry = v@;
        let ghost before = acc@;
        acc.push(v);
        proof {
            assert(acc@.subrange(0, acc@.len() - 1) =~= before);
        }
        assert(view_items(acc@) == old_view.push(entry));
        assert(view_items(acc@).subrange(0, view_items(acc@).len() - 1) =~= old_view);
        assert(depth_items(view_items(acc@)) <= t - m);
        assert(forall|k: int| 0 <= k < view_items(acc@).len() ==> numbers_wf(#[trigger] view_items(acc@)[k])) by {
            assert forall|k: int| 0 <= k < view_items(acc@).len() implies numbers_wf(#[trigger] view_items(acc@)[k]) by {
                if k < old_view.len() {
                    assert(view_items(acc@)[k] == old_view[k]);
                }
            }
        }
        if t < s.len() && s[t] == ',' {
            proof {
                lemma_skip_ws(sv, t + 1);
            }
            mm = skip_whitespace(s, t + 1);
        } else if t < s.len() && s[t] == ']' {
            return Ok((JsonValue::Array(acc), t + 1));
        } else {
            return Err(JsonError::Syntax { position: t, expected: Expected::CommaOrBracket });
        }
    }
}

/// Reads one value with nothing but whitespace around it.
fn parse_text_exec(s: &Vec<char>, strict: bool) -> (r: Result<JsonValue, JsonError>)
    ensures
        match r {
            Ok(v) => parse_text(s@, strict) == Ok::<JsonTree, JsonError>(v@),
            Err(e) => parse_text(s@, strict) == Err::<JsonTree, JsonError>(e),
        },
        r is Ok ==> numbers_wf(r->Ok_0@),
        r is Ok ==> depth(r->Ok_0@) <= s@.len(),
        !strict && r is Err ==> r->Err_0 is Syntax,
{
    match parse_value_at(s, 0, strict) {
        Err(e) => Err(e),
        Ok((v, e)) => {
            let z = skip_whitespace(s, e);
            if z == s.len() {
                Ok(v)
            } else {
                Err(JsonError::Syntax { position: z, expected: Expected::EndOfInput })
            }
        },
    }
}

/// The parser of JSON documents.
pub struct JSONParser;

impl JSONParser {
    /// Parses a whole document into its value tree. A text outside the
    /// grammar gives its first syntax error; a grammatical text gives the
    /// tree or its first decode problem.
    pub fn parse(text: &str) -> (r: Result<JsonValue, JsonError>)
        ensures
            match r {
                Ok(v) => parse_document(text@) == Ok::<JsonTree, JsonError>(v@),
                Err(e) => parse_document(text@) == Err::<JsonTree, JsonError>(e),
            },
            r is Ok ==> numbers_wf(r->Ok_0@),
            r is Ok ==> depth(r->Ok_0@) <= text@.len(),
            parse_text(text@, false) is Err ==> r is Err && r->Err_0 is Syntax,
            r matches Err(JsonError::Decode { .. }) ==> parse_text(text@, false) is Ok,
    {
        let s = chars_of(text);
        match parse_text_exec(&s, false) {
            Err(e) => Err(e),
            Ok(_) => parse_text_exec(&s, true),
        }
    }
}

/// Parses the text of a JSON file into its value tree.
pub fn parse_json_file(file: &str) -> (r: Result<JsonValue, JsonError>)
    ensures
        match r {
            Ok(v) => parse_document(file@) == Ok::<JsonTree, JsonError>(v@),
            Err(e) => parse_document(file@) == Err::<JsonTree, JsonError>(e),
        },
        r is Ok ==> numbers_wf(r->Ok_0@),
        r is Ok ==> depth(r->Ok_0@) <= file@.len(),
        parse_text(file@, false) is Err ==> r is Err && r->Err_0 is Syntax,
        r matches Err(JsonError::Decode { .. }) ==> parse_text(file@, false) is Ok,
{
    JSONParser::parse(file)
}

} // verus!
