use vstd::prelude::*;

verus! {

/// A JSON number held exactly, as a decimal.
///
/// Its value is `0.d1 d2 ... dn * 10^point`, negated when `negative` is set.
/// In a well-formed number the digits are each below ten and carry no leading
/// or trailing zero, so that equal values have equal representations; zero
/// has no digits and `point` zero (a zero keeps its sign, as `-0` does).
///
/// Unlike a double, the value is exact: a numeral with more than about 17
/// significant digits keeps and prints all of them. Values from the largest
/// double up to `10^309` are accepted; nonzero values below `1e-324` read as
/// zero, as they would in a double.
#[derive(Debug, PartialEq)]
pub struct JsonNumber {
    pub negative: bool,
    pub digits: Vec<u8>,
    pub point: i64,
}

/// The in-memory tree of a JSON document. Strings hold their decoded text;
/// object members keep their order, repeated keys included.
#[derive(Debug, PartialEq)]
pub enum JsonValue {
    String(String),
    Number(JsonNumber),
    Object(Vec<(String, JsonValue)>),
    Array(Vec<JsonValue>),
    Boolean(bool),
    Null,
}

/// The mathematical model of a `JsonValue`.
pub enum JsonTree {
    Str(Seq<char>),
    /// Sign, significant digits and decimal point position, as in `JsonNumber`.
    Num(bool, Seq<u8>, int),
    Obj(Seq<(Seq<char>, JsonTree)>),
    Arr(Seq<JsonTree>),
    Bool(bool),
    Null,
}

/// The digits of a well-formed number: decimal digits with no zero at either end.
pub open spec fn canonical_digits(d: Seq<u8>) -> bool {
    &&& forall|i: int| 0 <= i < d.len() ==> #[trigger] d[i] < 10
    &&& d.len() > 0 ==> d[0] != 0 && d[d.len() - 1] != 0
}

impl JsonNumber {
    /// Digits canonical, zero with point zero, and the point of a nonzero
    /// number within `MIN_POINT ..= MAX_POINT`.
    pub open spec fn wf(&self) -> bool {
        &&& canonical_digits(self.digits@)
        &&& self.digits@.len() == 0 ==> self.point == 0
        &&& self.digits@.len() > 0 ==> crate::number::MIN_POINT <= self.point
            <= crate::number::MAX_POINT
    }

    pub open spec fn view(&self) -> JsonTree {
        JsonTree::Num(self.negative, self.digits@, self.point as int)
    }
}

pub open spec fn view_items(s: Seq<JsonValue>) -> Seq<JsonTree>
    decreases s,
{
    if s.len() == 0 {
        Seq::empty()
    } else {
        view_items(s.subrange(0, s.len() - 1)).push(view_value(s[s.len() - 1]))
    }
}

pub open spec fn view_pairs(s: Seq<(String, JsonValue)>) -> Seq<(Seq<char>, JsonTree)>
    decreases s,
{
    if s.len() == 0 {
        Seq::empty()
    } else {
        view_pairs(s.subrange(0, s.len() - 1)).push(
            (s[s.len() - 1].0@, view_value(s[s.len() - 1].1)),
        )
    }
}

pub open spec fn view_value(v: JsonValue) -> JsonTree
    decreases v,
{
    match v {
        JsonValue::String(s) => JsonTree::Str(s@),
        JsonValue::Number(n) => n.view(),
        JsonValue::Object(o) => JsonTree::Obj(view_pairs(o@)),
        JsonValue::Array(a) => JsonTree::Arr(view_items(a@)),
        JsonValue::Boolean(b) => JsonTree::Bool(b),
        JsonValue::Null => JsonTree::Null,
    }
}

impl JsonValue {
    pub open spec fn view(&self) -> JsonTree {
        view_value(*self)
    }
}

pub proof fn lemma_view_items(s: Seq<JsonValue>)
    ensures
        view_items(s).len() == s.len(),
        forall|i: int| 0 <= i < s.len() ==> #[trigger] view_items(s)[i] == view_value(s[i]),
    decreases s.len(),
{
    if s.len() > 0 {
        let t = s.subrange(0, s.len() - 1);
        lemma_view_items(t);
        assert forall|i: int| 0 <= i < s.len() implies #[trigger] view_items(s)[i] == view_value(
            s[i],
        ) by {
            if i < s.len() - 1 {
                assert(s[i] == t[i]);
            }
        }
    }
}

pub proof fn lemma_view_pairs(s: Seq<(String, JsonValue)>)
    ensures
        view_pairs(s).len() == s.len(),
        forall|i: int|
            0 <= i < s.len() ==> #[trigger] view_pairs(s)[i] == (s[i].0@, view_value(s[i].1)),
    decreases s.len(),
{
    if s.len() > 0 {
        let t = s.subrange(0, s.len() - 1);
        lemma_view_pairs(t);
        assert forall|i: int| 0 <= i < s.len() implies #[trigger] view_pairs(s)[i] == (
            s[i].0@,
            view_value(s[i].1),
        ) by {
            if i < s.len() - 1 {
                assert(s[i] == t[i]);
            }
        }
    }
}

/// Every number in the tree is well formed (see `JsonNumber::wf`).
pub open spec fn numbers_wf(t: JsonTree) -> bool
    decreases t,
{
    match t {
        JsonTree::Num(negative, d, point) => canonical_digits(d) && (d.len() == 0 ==> point == 0)
            && (d.len() > 0 ==> crate::number::MIN_POINT <= point <= crate::number::MAX_POINT),
        JsonTree::Arr(xs) => forall|i: int| 0 <= i < xs.len() ==> numbers_wf(#[trigger] xs[i]),
        JsonTree::Obj(ps) => forall|i: int| 0 <= i < ps.len() ==> numbers_wf(#[trigger] ps[i].1),
        _ => true,
    }
}

/// The nesting depth of a tree: scalars are at depth zero.
pub open spec fn depth(t: JsonTree) -> nat
    decreases t,
{
    match t {
        JsonTree::Obj(ps) => 1 + depth_pairs(ps),
        JsonTree::Arr(xs) => 1 + depth_items(xs),
        _ => 0,
    }
}

pub open spec fn depth_items(xs: Seq<JsonTree>) -> nat
    decreases xs,
{
    if xs.len() == 0 {
        0
    } else {
        let a = depth_items(xs.subrange(0, xs.len() - 1));
        let b = depth(xs[xs.len() - 1]);
        if a >= b {
            a
        } else {
            b
        }
    }
}

pub open spec fn depth_pairs(ps: Seq<(Seq<char>, JsonTree)>) -> nat
    decreases ps,
{
    if ps.len() == 0 {
        0
    } else {
        let a = depth_pairs(ps.subrange(0, ps.len() - 1));
        let b = depth(ps[ps.len() - 1].1);
        if a >= b {
            a
        } else {
            b
        }
    }
}

pub proof fn lemma_depth_items(xs: Seq<JsonTree>, i: int)
    requires
        0 <= i < xs.len(),
    ensures
        depth(xs[i]) <= depth_items(xs),
    decreases xs.len(),
{
    if i < xs.len() - 1 {
        let t = xs.subrange(0, xs.len() - 1);
        assert(xs[i] == t[i]);
        lemma_depth_items(t, i);
    }
}

pub proof fn lemma_depth_pairs(ps: Seq<(Seq<char>, JsonTree)>, i: int)
    requires
        0 <= i < ps.len(),
    ensures
        depth(ps[i].1) <= depth_pairs(ps),
    decreases ps.len(),
{
    if i < ps.len() - 1 {
        let t = ps.subrange(0, ps.len() - 1);
        assert(ps[i] == t[i]);
        lemma_depth_pairs(t, i);
    }
}

} // verus!
