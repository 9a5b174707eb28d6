//! Completion gates: whether the KPI, test and coverage agents of an iteration passed, read
//! from the JSON verdicts they write or, failing that, from their wording.
use vstd::prelude::*;

use crate::agent::AgentOutput;
use crate::config::opt_view;
use crate::text::{
    cat, chars_of, contains, eq_str, is_blank, owned, push_char, spec_contains, spec_is_blank,
    spec_trim, string_from_range, trim,
};

verus! {

#[verifier::external_type_specification]
#[verifier::external_body]
pub struct ExJsonValue(serde_json::Value);

#[verifier::external_type_specification]
#[verifier::external_body]
#[verifier::reject_recursive_types(K)]
#[verifier::reject_recursive_types(V)]
pub struct ExJsonMap<K, V>(serde_json::Map<K, V>);

/// What a JSON value is, with its payload.
pub enum JsonShape {
    Null,
    Bool(bool),
    Number,
    Text(String),
    Array(Vec<serde_json::Value>),
    Object(serde_json::Map<String, serde_json::Value>),
}

/// The JSON document that `text` holds, as `serde_json::from_str` reads it, if it holds one.
pub uninterp spec fn json_document(text: Seq<char>) -> Option<serde_json::Value>;

/// The variant of a `serde_json::Value`, with its payload.
pub uninterp spec fn shape_of(v: serde_json::Value) -> JsonShape;

/// The value stored under `key` in a JSON object, as `serde_json::Map::get` finds it.
pub uninterp spec fn object_field(
    m: serde_json::Map<String, serde_json::Value>,
    key: Seq<char>,
) -> Option<serde_json::Value>;

/// Calls `serde_json::from_str::<serde_json::Value>`; the result is named, not described.
#[verifier::external_body]
fn parse_json(text: &str) -> (r: Option<serde_json::Value>)
    ensures
        r == json_document(text@),
{
    serde_json::from_str::<serde_json::Value>(text).ok()
}

/// Tells the variants of `serde_json::Value` apart, moving the payload out.
#[verifier::external_body]
fn json_shape(v: serde_json::Value) -> (r: JsonShape)
    ensures
        r == shape_of(v),
{
    match v {
        serde_json::Value::Null => JsonShape::Null,
        serde_json::Value::Bool(b) => JsonShape::Bool(b),
        serde_json::Value::Number(_) => JsonShape::Number,
        serde_json::Value::String(s) => JsonShape::Text(s),
        serde_json::Value::Array(a) => JsonShape::Array(a),
        serde_json::Value::Object(m) => JsonShape::Object(m),
    }
}

/// Calls `serde_json::Map::get` and clones what it finds.
#[verifier::external_body]
fn json_field(m: &serde_json::Map<String, serde_json::Value>, key: &str) -> (r: Option<
    serde_json::Value,
>)
    ensures
        r == object_field(*m, key@),
{
    m.get(key).cloned()
}

/// Whether `serde_json` reads `text` as one JSON document, skipping every value without
/// converting it (`serde_json::from_str::<serde::de::IgnoredAny>`).
pub uninterp spec fn json_well_formed(text: Seq<char>) -> bool;

/// The string that a JSON string literal stands for, as `serde_json::from_str::<String>`
/// reads it, if it reads one.
pub uninterp spec fn json_string(literal: Seq<char>) -> Option<Seq<char>>;

/// Calls `serde_json::from_str::<serde::de::IgnoredAny>`; the answer is named, not described.
#[verifier::external_body]
fn well_formed_json(text: &str) -> (b: bool)
    ensures
        b == json_well_formed(text@),
{
    serde_json::from_str::<serde::de::IgnoredAny>(text).is_ok()
}

/// Calls `serde_json::from_str::<String>` on a string literal.
#[verifier::external_body]
fn decode_json_string(literal: &str) -> (r: Option<String>)
    ensures
        match r {
            Some(x) => json_string(literal@) == Some(x@),
            None => json_string(literal@) is None,
        },
{
    serde_json::from_str::<String>(literal).ok()
}

// ---------------------------------------------------------------- verdict fields

/// The fields of a structured verdict.
#[derive(Clone, Debug)]
pub struct GateFields {
    pub passed: Option<bool>,
    pub signed_off: Option<bool>,
    pub feedback: Option<String>,
    pub missing_features: Option<Vec<String>>,
}

pub type GateView = (Option<bool>, Option<bool>, Option<Seq<char>>, Option<Seq<Seq<char>>>);

pub open spec fn opt_list(o: Option<Vec<String>>) -> Option<Seq<Seq<char>>> {
    match o {
        Some(v) => Some(v.deep_view()),
        None => None,
    }
}

impl GateFields {
    pub open spec fn view(self) -> GateView {
        (self.passed, self.signed_off, opt_view(self.feedback), opt_list(self.missing_features))
    }
}

/// An optional boolean field: absent or null is `None`, a boolean is kept, anything else is
/// refused (outer `None`).
pub open spec fn bool_field(x: Option<serde_json::Value>) -> Option<Option<bool>> {
    match x {
        None => Some(None),
        Some(v) => match shape_of(v) {
            JsonShape::Null => Some(None),
            JsonShape::Bool(b) => Some(Some(b)),
            _ => None,
        },
    }
}

/// An optional string field.
pub open spec fn text_field(x: Option<serde_json::Value>) -> Option<Option<Seq<char>>> {
    match x {
        None => Some(None),
        Some(v) => match shape_of(v) {
            JsonShape::Null => Some(None),
            JsonShape::Text(s) => Some(Some(s@)),
            _ => None,
        },
    }
}

pub open spec fn all_text(items: Seq<serde_json::Value>) -> bool {
    forall|i: int| 0 <= i < items.len() ==> shape_of(#[trigger] items[i]) is Text
}

pub open spec fn texts_of(items: Seq<serde_json::Value>) -> Seq<Seq<char>> {
    Seq::new(items.len(), |i: int| shape_of(items[i])->Text_0@)
}

/// An optional list of strings.
pub open spec fn list_field(x: Option<serde_json::Value>) -> Option<Option<Seq<Seq<char>>>> {
    match x {
        None => Some(None),
        Some(v) => match shape_of(v) {
            JsonShape::Null => Some(None),
            JsonShape::Array(items) => if all_text(items@) {
                Some(Some(texts_of(items@)))
            } else {
                None
            },
            _ => None,
        },
    }
}

pub open spec fn combine(
    a: Option<Option<bool>>,
    b: Option<Option<bool>>,
    c: Option<Option<Seq<char>>>,
    d: Option<Option<Seq<Seq<char>>>>,
) -> Option<GateView> {
    if a is Some && b is Some && c is Some && d is Some {
        Some((a->0, b->0, c->0, d->0))
    } else {
        None
    }
}

/// A verdict read from a JSON value: an object whose fields `passed`, `signed_off`,
/// `feedback` and `missing_features` are each absent, null or of their type, or an array of
/// exactly these four in order.
pub open spec fn decode_gate(v: serde_json::Value) -> Option<GateView> {
    match shape_of(v) {
        JsonShape::Object(m) => combine(
            bool_field(object_field(m, "passed"@)),
            bool_field(object_field(m, "signed_off"@)),
            text_field(object_field(m, "feedback"@)),
            list_field(object_field(m, "missing_features"@)),
        ),
        JsonShape::Array(items) => if items@.len() == 4 {
            combine(
                bool_field(Some(items@[0])),
                bool_field(Some(items@[1])),
                text_field(Some(items@[2])),
                list_field(Some(items@[3])),
            )
        } else {
            None
        },
        _ => None,
    }
}

fn read_bool(x: Option<serde_json::Value>) -> (r: Result<Option<bool>, ()>)
    ensures
        match bool_field(x) {
            Some(b) => r == Ok::<Option<bool>, ()>(b),
            None => r is Err,
        },
{
    match x {
        None => Ok(None),
        Some(v) => match json_shape(v) {
            JsonShape::Null => Ok(None),
            JsonShape::Bool(b) => Ok(Some(b)),
            _ => Err(()),
        },
    }
}

fn read_text(x: Option<serde_json::Value>) -> (r: Result<Option<String>, ()>)
    ensures
        match text_field(x) {
            Some(t) => r matches Ok(o) && opt_view(o) == t,
            None => r is Err,
        },
{
    match x {
        None => Ok(None),
        Some(v) => match json_shape(v) {
            JsonShape::Null => Ok(None),
            JsonShape::Text(s) => Ok(Some(s)),
            _ => Err(()),
        },
    }
}

fn read_list(x: Option<serde_json::Value>) -> (r: Result<Option<Vec<String>>, ()>)
    ensures
        match list_field(x) {
            Some(t) => r matches Ok(o) && opt_list(o) == t,
            None => r is Err,
        },
{
    match x {
        None => Ok(None),
        Some(v) => match json_shape(v) {
            JsonShape::Null => Ok(None),
            JsonShape::Array(items) => {
                let ghost iv = items@;
                assert(list_field(x) == (if all_text(iv) {
                    Some(Some(texts_of(iv)))
                } else {
                    None
                }));
                let n = items.len();
                let mut rest = items;
                let mut out: Vec<String> = Vec::new();
                let mut i: usize = 0;
                while i < n
                    invariant
                        n == iv.len(),
                        i <= n,
                        rest@ == iv.subrange(i as int, n as int),
                        list_field(x) == (if all_text(iv) {
                            Some(Some(texts_of(iv)))
                        } else {
                            None
                        }),
                        all_text(iv.take(i as int)),
                        out.deep_view() =~= texts_of(iv.take(i as int)),
                    decreases n - i,
                {
                    let item = rest.remove(0);
                    assert(item == iv[i as int]);
                    assert(rest@ =~= iv.subrange(i + 1, n as int));
                    match json_shape(item) {
                        JsonShape::Text(s) => {
                            let ghost o0 = out.deep_view();
                            out.push(s);
                            proof {
                                assert(out.deep_view() =~= o0.push(s@));
                                assert forall|k: int| 0 <= k < i + 1 implies out.deep_view()[k]
                                    == texts_of(iv.take(i + 1))[k] by {
                                    if k < i {
                                        assert(iv.take(i + 1)[k] == iv.take(i as int)[k]);
                                    } else {
                                        assert(iv.take(i + 1)[k] == iv[i as int]);
                                    }
                                }
                                assert(iv.take(i + 1) =~= iv.take(i as int).push(iv[i as int]));
                                assert forall|k: int| 0 <= k < i + 1 implies shape_of(
                                    #[trigger] iv.take(i + 1)[k],
                                ) is Text by {
                                    if k < i {
                                        assert(iv.take(i + 1)[k] == iv.take(i as int)[k]);
                                    }
                                }
                            }
                        },
                        _ => {
                            proof {
                                assert(!(shape_of(iv[i as int]) is Text));
                                assert(!all_text(iv));
                            }
                            return Err(());
                        },
                    }
                    i = i + 1;
                }
                assert(iv.take(n as int) =~= iv);
                Ok(Some(out))
            },
            _ => Err(()),
        },
    }
}

/// Reads a verdict from a JSON value.
pub fn decode_gate_fields(v: serde_json::Value) -> (r: Option<GateFields>)
    ensures
        match decode_gate(v) {
            Some(g) => r matches Some(f) && f.view() == g,
            None => r is None,
        },
{
    let ghost vv = v;
    match json_shape(v) {
        JsonShape::Object(m) => {
            proof {
                reveal_strlit("passed");
                reveal_strlit("signed_off");
                reveal_strlit("feedback");
                reveal_strlit("missing_features");
            }
            let a = read_bool(json_field(&m, "passed"));
            let b = read_bool(json_field(&m, "signed_off"));
            let c = read_text(json_field(&m, "feedback"));
            let d = read_list(json_field(&m, "missing_features"));
            gate_of(a, b, c, d)
        },
        JsonShape::Array(items) => {
            if items.len() != 4 {
                return None;
            }
            let ghost iv = items@;
            let mut rest = items;
            let x0 = rest.remove(0);
            let x1 = rest.remove(0);
            let x2 = rest.remove(0);
            let x3 = rest.remove(0);
            assert(x0 == iv[0] && x1 == iv[1] && x2 == iv[2] && x3 == iv[3]);
            let a = read_bool(Some(x0));
            let b = read_bool(Some(x1));
            let c = read_text(Some(x2));
            let d = read_list(Some(x3));
            gate_of(a, b, c, d)
        },
        _ => None,
    }
}

fn gate_of(
    a: Result<Option<bool>, ()>,
    b: Result<Option<bool>, ()>,
    c: Result<Option<String>, ()>,
    d: Result<Option<Vec<String>>, ()>,
) -> (r: Option<GateFields>)
    ensures
        (a is Ok && b is Ok && c is Ok && d is Ok) ==> (r matches Some(f) && f.passed == a->Ok_0
            && f.signed_off == b->Ok_0 && opt_view(f.feedback) == opt_view(c->Ok_0) && opt_list(
            f.missing_features,
        ) == opt_list(d->Ok_0)),
        !(a is Ok && b is Ok && c is Ok && d is Ok) ==> r is None,
{
    match (a, b, c, d) {
        (Ok(passed), Ok(signed_off), Ok(feedback), Ok(missing_features)) => Some(
            GateFields { passed, signed_off, feedback, missing_features },
        ),
        _ => None,
    }
}

// ---------------------------------------------------------------- locating a JSON object

/// The position of the first `c` at or after `i`, or the length.
pub open spec fn index_of_char(s: Seq<char>, c: char, i: int) -> int
    decreases s.len() - i,
{
    if i >= s.len() {
        s.len() as int
    } else if s[i] == c {
        i
    } else {
        index_of_char(s, c, i + 1)
    }
}

/// Scans from `i` with the brace depth, whether inside a string and whether the previous
/// character escaped this one; the end of the object when its braces balance.
pub open spec fn object_end(s: Seq<char>, i: int, depth: nat, in_string: bool, escaped: bool) -> Option<
    int,
>
    decreases s.len() - i,
{
    if i >= s.len() || i < 0 {
        None
    } else if escaped {
        object_end(s, i + 1, depth, in_string, false)
    } else if s[i] == '\\' && in_string {
        object_end(s, i + 1, depth, in_string, true)
    } else if s[i] == '"' {
        object_end(s, i + 1, depth, !in_string, false)
    } else if s[i] == '{' && !in_string {
        object_end(s, i + 1, depth + 1, in_string, false)
    } else if s[i] == '}' && !in_string {
        let d: nat = if depth == 0 {
            0
        } else {
            (depth - 1) as nat
        };
        if d == 0 {
            Some(i + 1)
        } else {
            object_end(s, i + 1, d, in_string, false)
        }
    } else {
        object_end(s, i + 1, depth, in_string, false)
    }
}

/// The first balanced `{ ... }` of `s`, braces inside strings not counting.
pub open spec fn extract_json_spec(s: Seq<char>) -> Option<Seq<char>> {
    let start = index_of_char(s, '{', 0);
    if start >= s.len() {
        None
    } else {
        match object_end(s, start, 0, false, false) {
            Some(end) => Some(s.subrange(start, end)),
            None => None,
        }
    }
}

pub fn extract_json_object(content: &str) -> (r: Option<String>)
    ensures
        match extract_json_spec(content@) {
            Some(t) => r matches Some(x) && x@ == t,
            None => r is None,
        },
{
    let v = chars_of(content);
    let n = v.len();
    let mut start: usize = 0;
    while start < n && v[start] != '{'
        invariant
            v@ == content@,
            n == v@.len(),
            start <= n,
            index_of_char(v@, '{', 0) == index_of_char(v@, '{', start as int),
        decreases n - start,
    {
        start = start + 1;
    }
    if start == n {
        return None;
    }
    assert(index_of_char(v@, '{', start as int) == start);
    let mut depth: usize = 0;
    let mut in_string = false;
    let mut escaped = false;
    let mut i: usize = start;
    while i < n
        invariant
            v@ == content@,
            n == v@.len(),
            start < n,
            start <= i <= n,
            index_of_char(v@, '{', 0) == start,
            depth <= i - start,
            object_end(v@, start as int, 0, false, false) == object_end(
                v@,
                i as int,
                depth as nat,
                in_string,
                escaped,
            ),
        decreases n - i,
    {
        let c = v[i];
        let ghost d0 = depth as nat;
        let ghost s0 = in_string;
        let ghost e0 = escaped;
        if escaped {
            escaped = false;
        } else if c == '\\' && in_string {
            escaped = true;
        } else if c == '"' {
            in_string = !in_string;
        } else if c == '{' && !in_string {
            depth = depth + 1;
        } else if c == '}' && !in_string {
            depth = if depth == 0 {
                0
            } else {
                depth - 1
            };
            if depth == 0 {
                assert(object_end(v@, i as int, d0, s0, e0) == Some(i + 1));
                return Some(string_from_range(&v, start, i + 1));
            }
        }
        i = i + 1;
    }
    None
}

// ---------------------------------------------------------------- the members of an object

/// JSON whitespace.
pub open spec fn json_space(c: char) -> bool {
    c == ' ' || c == '\t' || c == '\n' || c == '\r'
}

/// The first position at or after `i` that is not JSON whitespace, or the length.
pub open spec fn skip_space(s: Seq<char>, i: int) -> int
    decreases s.len() - i,
{
    if i < 0 || i >= s.len() {
        s.len() as int
    } else if json_space(s[i]) {
        skip_space(s, i + 1)
    } else {
        i
    }
}

/// The position just after the string literal whose opening quote stands before `i`, the
/// previous character escaping this one when `escaped`; `None` if it does not close.
pub open spec fn string_close(s: Seq<char>, i: int, escaped: bool) -> Option<int>
    decreases s.len() - i,
{
    if i < 0 || i >= s.len() {
        None
    } else if escaped {
        string_close(s, i + 1, false)
    } else if s[i] == '\\' {
        string_close(s, i + 1, true)
    } else if s[i] == '"' {
        Some(i + 1)
    } else {
        string_close(s, i + 1, false)
    }
}

/// Where a member's value that starts at `i` ends: at the first `,` or `}` that is outside
/// strings and outside nested brackets; `depth` counts the brackets open.
pub open spec fn value_close(s: Seq<char>, i: int, depth: nat, in_string: bool, escaped: bool) -> Option<
    int,
>
    decreases s.len() - i,
{
    if i < 0 || i >= s.len() {
        None
    } else if escaped {
        value_close(s, i + 1, depth, in_string, false)
    } else if in_string {
        if s[i] == '\\' {
            value_close(s, i + 1, depth, true, true)
        } else if s[i] == '"' {
            value_close(s, i + 1, depth, false, false)
        } else {
            value_close(s, i + 1, depth, true, false)
        }
    } else if s[i] == '"' {
        value_close(s, i + 1, depth, true, false)
    } else if s[i] == '{' || s[i] == '[' {
        value_close(s, i + 1, depth + 1, false, false)
    } else if (s[i] == '}' || s[i] == ']') && depth > 0 {
        value_close(s, i + 1, (depth - 1) as nat, false, false)
    } else if (s[i] == ',' || s[i] == '}') && depth == 0 {
        Some(i)
    } else {
        value_close(s, i + 1, depth, false, false)
    }
}

pub proof fn lemma_skip_space(s: Seq<char>, i: int)
    requires
        0 <= i,
    ensures
        i <= s.len() ==> i <= skip_space(s, i) <= s.len(),
        skip_space(s, i) < s.len() ==> !json_space(s[skip_space(s, i)]),
    decreases s.len() - i,
{
    if i < s.len() && json_space(s[i]) {
        lemma_skip_space(s, i + 1);
    }
}

pub proof fn lemma_string_close(s: Seq<char>, i: int, escaped: bool)
    ensures
        string_close(s, i, escaped) matches Some(k) ==> 0 <= i < k <= s.len(),
    decreases s.len() - i,
{
    if 0 <= i < s.len() && !(!escaped && s[i] == '"') {
        lemma_string_close(s, i + 1, escaped || s[i] == '\\' && !escaped);
        if escaped {
            lemma_string_close(s, i + 1, false);
        } else if s[i] == '\\' {
            lemma_string_close(s, i + 1, true);
        } else {
            lemma_string_close(s, i + 1, false);
        }
    }
}

pub proof fn lemma_value_close(s: Seq<char>, i: int, depth: nat, in_string: bool, escaped: bool)
    ensures
        value_close(s, i, depth, in_string, escaped) matches Some(e) ==> 0 <= i <= e < s.len() && (
        s[e] == ',' || s[e] == '}'),
    decreases s.len() - i,
{
    if 0 <= i < s.len() {
        if escaped {
            lemma_value_close(s, i + 1, depth, in_string, false);
        } else if in_string {
            lemma_value_close(s, i + 1, depth, true, true);
            lemma_value_close(s, i + 1, depth, false, false);
            lemma_value_close(s, i + 1, depth, true, false);
        } else {
            lemma_value_close(s, i + 1, depth, true, false);
            lemma_value_close(s, i + 1, depth + 1, false, false);
            if depth > 0 {
                lemma_value_close(s, i + 1, (depth - 1) as nat, false, false);
            }
            lemma_value_close(s, i + 1, depth, false, false);
        }
    }
}

/// A member of an object as its key literal and its value text.
pub type RawMember = (Seq<char>, Seq<char>);

/// The members of an object from `i` on, `i` standing just after `{` (`first`) or after a
/// `,`: each key literal with the text of its value, up to the closing `}`.
pub open spec fn members_from(s: Seq<char>, i: int, first: bool) -> Option<Seq<RawMember>>
    decreases s.len() - i,
{
    if i < 0 || i > s.len() {
        None
    } else {
        let j = skip_space(s, i);
        if j >= s.len() {
            None
        } else if first && s[j] == '}' {
            Some(Seq::empty())
        } else if s[j] != '"' {
            None
        } else {
            match string_close(s, j + 1, false) {
                None => None,
                Some(k) => {
                    proof {
                        lemma_skip_space(s, i);
                        lemma_string_close(s, j + 1, false);
                        lemma_skip_space(s, k);
                    }
                    let c = skip_space(s, k);
                    if c >= s.len() || s[c] != ':' {
                        None
                    } else {
                        match value_close(s, c + 1, 0, false, false) {
                            None => None,
                            Some(e) => {
                                proof {
                                    lemma_value_close(s, c + 1, 0, false, false);
                                }
                                let m = (s.subrange(j, k), s.subrange(c + 1, e));
                                if s[e] == '}' {
                                    Some(seq![m])
                                } else {
                                    match members_from(s, e + 1, false) {
                                        Some(rest) => Some(seq![m] + rest),
                                        None => None,
                                    }
                                }
                            },
                        }
                    }
                },
            }
        }
    }
}

/// Whether `s` starts, after whitespace, with `{`.
pub open spec fn opens_object(s: Seq<char>) -> bool {
    skip_space(s, 0) < s.len() && s[skip_space(s, 0)] == '{'
}

/// The members of the object that `s` holds.
pub open spec fn object_members(s: Seq<char>) -> Option<Seq<RawMember>> {
    if opens_object(s) {
        members_from(s, skip_space(s, 0) + 1, true)
    } else {
        None
    }
}

fn skip_space_exec(v: &Vec<char>, i: usize) -> (r: usize)
    requires
        i <= v@.len(),
    ensures
        r == skip_space(v@, i as int),
        i <= r <= v@.len(),
{
    let mut j = i;
    while j < v.len() && (v[j] == ' ' || v[j] == '\t' || v[j] == '\n' || v[j] == '\r')
        invariant
            i <= j <= v@.len(),
            skip_space(v@, i as int) == skip_space(v@, j as int),
        decreases v.len() - j,
    {
        j = j + 1;
    }
    j
}

fn string_close_exec(v: &Vec<char>, i: usize) -> (r: Option<usize>)
    requires
        i <= v@.len(),
    ensures
        match string_close(v@, i as int, false) {
            Some(k) => r == Some(k as usize),
            None => r is None,
        },
{
    let mut j = i;
    let mut escaped = false;
    while j < v.len()
        invariant
            i <= j <= v@.len(),
            string_close(v@, i as int, false) == string_close(v@, j as int, escaped),
        decreases v.len() - j,
    {
        if escaped {
            escaped = false;
        } else if v[j] == '\\' {
            escaped = true;
        } else if v[j] == '"' {
            return Some(j + 1);
        }
        j = j + 1;
    }
    None
}

fn value_close_exec(v: &Vec<char>, i: usize) -> (r: Option<usize>)
    requires
        i <= v@.len(),
    ensures
        match value_close(v@, i as int, 0, false, false) {
            Some(e) => r == Some(e as usize),
            None => r is None,
        },
{
    let mut j = i;
    let mut depth: usize = 0;
    let mut in_string = false;
    let mut escaped = false;
    while j < v.len()
        invariant
            i <= j <= v@.len(),
            depth <= j,
            value_close(v@, i as int, 0, false, false) == value_close(
                v@,
                j as int,
                depth as nat,
                in_string,
                escaped,
            ),
        decreases v.len() - j,
    {
        let c = v[j];
        if escaped {
            escaped = false;
        } else if in_string {
            if c == '\\' {
                escaped = true;
            } else if c == '"' {
                in_string = false;
            }
        } else if c == '"' {
            in_string = true;
        } else if c == '{' || c == '[' {
            depth = depth + 1;
        } else if (c == '}' || c == ']') && depth > 0 {
            depth = depth - 1;
        } else if (c == ',' || c == '}') && depth == 0 {
            return Some(j);
        }
        j = j + 1;
    }
    None
}

pub open spec fn members_view(ms: Seq<(String, String)>) -> Seq<RawMember> {
    ms.map_values(|m: (String, String)| (m.0@, m.1@))
}

/// The members of the object that `text` holds, each as its key literal and value text.
pub fn object_members_of(text: &str) -> (r: Option<Vec<(String, String)>>)
    ensures
        match object_members(text@) {
            Some(ms) => r matches Some(x) && members_view(x@) == ms,
            None => r is None,
        },
{
    let v = chars_of(text);
    let ghost s = v@;
    let j0 = skip_space_exec(&v, 0);
    if j0 >= v.len() || v[j0] != '{' {
        return None;
    }
    let mut out: Vec<(String, String)> = Vec::new();
    let mut i: usize = j0 + 1;
    let mut first = true;
    assert(members_view(out@) =~= Seq::<RawMember>::empty());
    while i <= v.len()
        invariant
            s == v@,
            s == text@,
            opens_object(s),
            j0 == skip_space(s, 0),
            0 <= i <= s.len(),
            match members_from(s, i as int, first) {
                Some(rest) => members_from(s, j0 + 1, true) == Some(members_view(out@) + rest),
                None => members_from(s, j0 + 1, true) is None,
            },
        decreases s.len() - i,
    {
        let j = skip_space_exec(&v, i);
        if j >= v.len() {
            return None;
        }
        if first && v[j] == '}' {
            assert(members_view(out@) + Seq::<RawMember>::empty() =~= members_view(out@));
            return Some(out);
        }
        if v[j] != '"' {
            return None;
        }
        let k = match string_close_exec(&v, j + 1) {
            Some(k) => k,
            None => {
                return None;
            },
        };
        proof {
            lemma_string_close(s, j + 1, false);
        }
        let c = skip_space_exec(&v, k);
        if c >= v.len() || v[c] != ':' {
            return None;
        }
        let e = match value_close_exec(&v, c + 1) {
            Some(e) => e,
            None => {
                return None;
            },
        };
        proof {
            lemma_value_close(s, c + 1, 0, false, false);
        }
        let key = string_from_range(&v, j, k);
        let value = string_from_range(&v, c + 1, e);
        let ghost m: RawMember = (s.subrange(j as int, k as int), s.subrange(c + 1, e as int));
        let ghost before = members_view(out@);
        out.push((key, value));
        assert(members_view(out@) =~= before.push(m));
        if v[e] == '}' {
            assert(members_from(s, i as int, first) == Some(seq![m]));
            assert(before + seq![m] =~= before.push(m));
            return Some(out);
        }
        proof {
            match members_from(s, e + 1, false) {
                Some(rest) => {
                    assert(members_from(s, i as int, first) == Some(seq![m] + rest));
                    assert(before + (seq![m] + rest) =~= before.push(m) + rest);
                },
                None => {
                    assert(members_from(s, i as int, first) is None);
                },
            }
        }
        i = e + 1;
        first = false;
    }
    None
}

/// The value texts of the members whose key is `name`, in order.
pub open spec fn values_named(ms: Seq<RawMember>, name: Seq<char>) -> Seq<Seq<char>>
    decreases ms.len(),
{
    if ms.len() == 0 {
        Seq::empty()
    } else {
        let rest = values_named(ms.drop_last(), name);
        if json_string(ms.last().0) == Some(name) {
            rest.push(ms.last().1)
        } else {
            rest
        }
    }
}

/// A field of the verdict among an object's members: absent, or given once and read as JSON;
/// a field given twice, or whose value does not read, is refused (outer `None`).
pub open spec fn known_field(ms: Seq<RawMember>, name: Seq<char>) -> Option<Option<serde_json::Value>> {
    let raws = values_named(ms, name);
    if raws.len() == 0 {
        Some(None)
    } else if raws.len() == 1 {
        match json_document(raws[0]) {
            Some(v) => Some(Some(v)),
            None => None,
        }
    } else {
        None
    }
}

pub open spec fn then_bool(x: Option<Option<serde_json::Value>>) -> Option<Option<bool>> {
    match x {
        Some(o) => bool_field(o),
        None => None,
    }
}

pub open spec fn then_text(x: Option<Option<serde_json::Value>>) -> Option<Option<Seq<char>>> {
    match x {
        Some(o) => text_field(o),
        None => None,
    }
}

pub open spec fn then_list(x: Option<Option<serde_json::Value>>) -> Option<
    Option<Seq<Seq<char>>>,
> {
    match x {
        Some(o) => list_field(o),
        None => None,
    }
}

/// A verdict read from an object's members: each of `passed`, `signed_off`, `feedback` and
/// `missing_features` absent, null or of its type, none given twice; other members are
/// skipped unread.
pub open spec fn members_gate(ms: Seq<RawMember>) -> Option<GateView> {
    combine(
        then_bool(known_field(ms, "passed"@)),
        then_bool(known_field(ms, "signed_off"@)),
        then_text(known_field(ms, "feedback"@)),
        then_list(known_field(ms, "missing_features"@)),
    )
}

/// A verdict read from a JSON text: refused unless it is well-formed JSON; an object is read
/// member by member, anything else as a value.
pub open spec fn read_gate(t: Seq<char>) -> Option<GateView> {
    if !json_well_formed(t) {
        None
    } else if opens_object(t) {
        match object_members(t) {
            Some(ms) => members_gate(ms),
            None => None,
        }
    } else {
        match json_document(t) {
            Some(v) => decode_gate(v),
            None => None,
        }
    }
}

fn raws_named(ms: &Vec<(String, String)>, name: &str) -> (r: Vec<String>)
    ensures
        r.deep_view() == values_named(members_view(ms@), name@),
{
    let ghost mv = members_view(ms@);
    let mut r: Vec<String> = Vec::new();
    let mut i: usize = 0;
    while i < ms.len()
        invariant
            mv == members_view(ms@),
            i <= ms@.len(),
            r.deep_view() == values_named(mv.take(i as int), name@),
        decreases ms.len() - i,
    {
        proof {
            assert(mv.take(i + 1).drop_last() =~= mv.take(i as int));
            assert(mv.take(i + 1).last() == (ms@[i as int].0@, ms@[i as int].1@));
        }
        match decode_json_string(ms[i].0.as_str()) {
            Some(k) => {
                if eq_str(k.as_str(), name) {
                    let ghost r0 = r.deep_view();
                    r.push(owned(ms[i].1.as_str()));
                    assert(r.deep_view() =~= r0.push(ms@[i as int].1@));
                }
            },
            None => {},
        }
        i = i + 1;
    }
    assert(mv.take(i as int) =~= mv);
    r
}

fn read_known(ms: &Vec<(String, String)>, name: &str) -> (r: Result<Option<serde_json::Value>, ()>)
    ensures
        match known_field(members_view(ms@), name@) {
            Some(x) => r == Ok::<Option<serde_json::Value>, ()>(x),
            None => r is Err,
        },
{
    let raws = raws_named(ms, name);
    assert(raws@.len() == raws.deep_view().len());
    if raws.len() == 0 {
        Ok(None)
    } else if raws.len() == 1 {
        assert(raws.deep_view()[0] == raws@[0]@);
        match parse_json(raws[0].as_str()) {
            Some(v) => Ok(Some(v)),
            None => Err(()),
        }
    } else {
        Err(())
    }
}

fn bool_from(x: Result<Option<serde_json::Value>, ()>) -> (r: Result<Option<bool>, ()>)
    ensures
        match x {
            Ok(o) => match bool_field(o) {
                Some(b) => r == Ok::<Option<bool>, ()>(b),
                None => r is Err,
            },
            Err(_) => r is Err,
        },
{
    match x {
        Ok(o) => read_bool(o),
        Err(_) => Err(()),
    }
}

/// Reads a verdict from a JSON text.
pub fn read_gate_fields(t: &str) -> (r: Option<GateFields>)
    ensures
        match read_gate(t@) {
            Some(g) => r matches Some(f) && f.view() == g,
            None => r is None,
        },
{
    if !well_formed_json(t) {
        return None;
    }
    let members = object_members_of(t);
    let v = chars_of(t);
    let j = skip_space_exec(&v, 0);
    if j < v.len() && v[j] == '{' {
        match members {
            Some(ms) => {
                proof {
                    reveal_strlit("passed");
                    reveal_strlit("signed_off");
                    reveal_strlit("feedback");
                    reveal_strlit("missing_features");
                }
                let a = bool_from(read_known(&ms, "passed"));
                let b = bool_from(read_known(&ms, "signed_off"));
                let c = match read_known(&ms, "feedback") {
                    Ok(o) => read_text(o),
                    Err(_) => Err(()),
                };
                let d = match read_known(&ms, "missing_features") {
                    Ok(o) => read_list(o),
                    Err(_) => Err(()),
                };
                gate_of(a, b, c, d)
            },
            None => None,
        }
    } else {
        match parse_json(t) {
            Some(val) => decode_gate_fields(val),
            None => None,
        }
    }
}

// ---------------------------------------------------------------- verdicts

/// What `to_ascii_uppercase` makes of a string.
pub open spec fn ascii_upper(s: Seq<char>) -> Seq<char> {
    s.map_values(|c: char| if 'a' <= c && c <= 'z' {
        ((c as u32) - 32) as char
    } else {
        c
    })
}

pub fn to_ascii_uppercase(s: &str) -> (r: String)
    ensures
        r@ == ascii_upper(s@),
{
    let v = chars_of(s);
    let mut r = String::new();
    let mut i: usize = 0;
    while i < v.len()
        invariant
            v@ == s@,
            i <= v@.len(),
            r@ =~= ascii_upper(v@.take(i as int)),
        decreases v.len() - i,
    {
        let c = v[i];
        let u = if 'a' <= c && c <= 'z' {
            ((c as u32) - 32) as u8 as char
        } else {
            c
        };
        assert(u == (if 'a' <= c && c <= 'z' {
            ((c as u32) - 32) as char
        } else {
            c
        }));
        push_char(&mut r, u);
        assert(v@.take(i + 1) =~= v@.take(i as int).push(c));
        i = i + 1;
    }
    assert(v@.take(v@.len() as int) =~= v@);
    r
}

/// The structured verdict of an agent's content: the content itself as JSON, or else the
/// first balanced object found in it.
pub open spec fn structured_gate(content: Seq<char>) -> Option<GateView> {
    let t = spec_trim(content);
    let direct = read_gate(t);
    if direct is Some {
        direct
    } else {
        match extract_json_spec(t) {
            Some(obj) => read_gate(obj),
            None => None,
        }
    }
}

pub fn structured_gate_fields(content: &str) -> (r: Option<GateFields>)
    ensures
        match structured_gate(content@) {
            Some(g) => r matches Some(f) && f.view() == g,
            None => r is None,
        },
{
    let t = trim(content);
    let direct = read_gate_fields(t.as_str());
    if direct.is_some() {
        return direct;
    }
    match extract_json_object(t.as_str()) {
        Some(obj) => read_gate_fields(obj.as_str()),
        None => None,
    }
}

/// The verdict of one gate agent.
#[derive(Clone, Debug)]
pub struct GateResult {
    pub passed: bool,
    pub feedback: String,
}

pub open spec fn or_else_bool(a: Option<bool>, b: Option<bool>) -> bool {
    match a {
        Some(x) => x,
        None => match b {
            Some(y) => y,
            None => false,
        },
    }
}

/// The words joined by commas.
pub open spec fn comma_list(s: Seq<Seq<char>>) -> Seq<char>
    decreases s.len(),
{
    if s.len() == 0 {
        Seq::empty()
    } else if s.len() == 1 {
        s[0]
    } else {
        comma_list(s.drop_last()) + ", "@ + s.last()
    }
}

/// The feedback of a structured verdict, followed by a line listing any missing features.
pub open spec fn structured_feedback(g: GateView) -> Seq<char> {
    let base = match g.2 {
        Some(f) => f,
        None => Seq::empty(),
    };
    match g.3 {
        Some(m) => if m.len() > 0 {
            (if base.len() > 0 {
                base + "\n"@
            } else {
                base
            }) + "missing features: "@ + comma_list(m)
        } else {
            base
        },
        None => base,
    }
}

/// Wording that fails a gate.
pub open spec fn says_failed(u: Seq<char>) -> bool {
    spec_contains(u, "FAIL"@) || spec_contains(u, "NOT SIGNED"@) || spec_contains(
        u,
        "SIGNED_OFF: FALSE"@,
    ) || spec_contains(u, "SIGNED_OFF\":FALSE"@) || spec_contains(u, "SIGNED_OFF\": FALSE"@)
        || spec_contains(u, "SIGNED_OFF = FALSE"@) || spec_contains(u, "SIGNED_OFF FALSE"@)
}

/// Wording that passes a gate.
pub open spec fn says_passed(u: Seq<char>) -> bool {
    spec_contains(u, "PASS"@) || spec_contains(u, "SIGNED_OFF: TRUE"@) || spec_contains(
        u,
        "SIGNED_OFF\":TRUE"@,
    ) || spec_contains(u, "SIGNED_OFF\": TRUE"@) || spec_contains(u, "SIGNED_OFF = TRUE"@)
        || spec_contains(u, "SIGNED_OFF TRUE"@)
}

/// The verdict of a gate agent's content, `field` naming the flag that decides (`signed_off`
/// for coverage, `passed` otherwise).
pub open spec fn gate_verdict(content: Seq<char>, field: Seq<char>) -> (bool, Seq<char>) {
    match structured_gate(content) {
        Some(g) => {
            let passed = if field == "signed_off"@ {
                or_else_bool(g.1, g.0)
            } else {
                or_else_bool(g.0, g.1)
            };
            (passed, structured_feedback(g))
        },
        None => {
            let u = ascii_upper(content);
            let passed = !says_failed(u) && says_passed(u);
            (passed, if passed {
                Seq::empty()
            } else {
                spec_trim(content)
            })
        },
    }
}

/// Content with no JSON verdict fails on any word of failure, with the trimmed content as
/// feedback, and succeeds only on a word of success, with no feedback.
pub proof fn lemma_wording_decides_without_json(content: Seq<char>, field: Seq<char>)
    requires
        structured_gate(content) is None,
    ensures
        ({
            let u = ascii_upper(content);
            spec_contains(u, "FAIL"@) || spec_contains(u, "NOT SIGNED"@) || spec_contains(
                u,
                "SIGNED_OFF: FALSE"@,
            ) || spec_contains(u, "SIGNED_OFF\":FALSE"@) || spec_contains(u, "SIGNED_OFF\": FALSE"@)
                || spec_contains(u, "SIGNED_OFF = FALSE"@) || spec_contains(u, "SIGNED_OFF FALSE"@)
        }) ==> !gate_verdict(content, field).0 && gate_verdict(content, field).1 == spec_trim(
            content,
        ),
        gate_verdict(content, field).0 ==> gate_verdict(content, field).1.len() == 0,
        gate_verdict(content, field).0 ==> ({
            let u = ascii_upper(content);
            spec_contains(u, "PASS"@) || spec_contains(u, "SIGNED_OFF: TRUE"@) || spec_contains(
                u,
                "SIGNED_OFF\":TRUE"@,
            ) || spec_contains(u, "SIGNED_OFF\": TRUE"@) || spec_contains(u, "SIGNED_OFF = TRUE"@)
                || spec_contains(u, "SIGNED_OFF TRUE"@)
        }),
{
}

/// With a JSON verdict the flag named by `field` decides, the other flag standing in when it
/// is absent; with neither flag set the result is a failure.
pub proof fn lemma_json_verdict_decides(content: Seq<char>, field: Seq<char>)
    requires
        structured_gate(content) is Some,
    ensures
        ({
            let g = structured_gate(content)->0;
            let mine = if field == "signed_off"@ { g.1 } else { g.0 };
            let other = if field == "signed_off"@ { g.0 } else { g.1 };
            gate_verdict(content, field).0 == match mine {
                Some(b) => b,
                None => match other {
                    Some(b) => b,
                    None => false,
                },
            }
        }),
{
}

fn join_comma(items: &Vec<String>) -> (r: String)
    ensures
        r@ == comma_list(items.deep_view()),
{
    let mut r = String::new();
    let mut i: usize = 0;
    while i < items.len()
        invariant
            i <= items@.len(),
            r@ == comma_list(items.deep_view().take(i as int)),
        decreases items.len() - i,
    {
        assert(items.deep_view().take(i + 1).drop_last() =~= items.deep_view().take(i as int));
        if i > 0 {
            r = cat(r.as_str(), ", ");
        }
        r = cat(r.as_str(), items[i].as_str());
        i = i + 1;
    }
    assert(items.deep_view().take(items@.len() as int) =~= items.deep_view());
    r
}

fn says_failed_exec(u: &str) -> (r: bool)
    ensures
        r == says_failed(u@),
{
    contains(u, "FAIL") || contains(u, "NOT SIGNED") || contains(u, "SIGNED_OFF: FALSE")
        || contains(u, "SIGNED_OFF\":FALSE") || contains(u, "SIGNED_OFF\": FALSE") || contains(
        u,
        "SIGNED_OFF = FALSE",
    ) || contains(u, "SIGNED_OFF FALSE")
}

fn says_passed_exec(u: &str) -> (r: bool)
    ensures
        r == says_passed(u@),
{
    contains(u, "PASS") || contains(u, "SIGNED_OFF: TRUE") || contains(u, "SIGNED_OFF\":TRUE")
        || contains(u, "SIGNED_OFF\": TRUE") || contains(u, "SIGNED_OFF = TRUE") || contains(
        u,
        "SIGNED_OFF TRUE",
    )
}

/// The verdict of a gate whose structured fields, if any were found, are `structured`.
pub fn gate_from_fields(content: &str, field: &str, structured: Option<GateFields>) -> (r: GateResult)
    ensures
        match structured {
            Some(g) => r.passed == (if field@ == "signed_off"@ {
                or_else_bool(g.signed_off, g.passed)
            } else {
                or_else_bool(g.passed, g.signed_off)
            }) && r.feedback@ == structured_feedback(g.view()),
            None => {
                let u = ascii_upper(content@);
                &&& r.passed == (!says_failed(u) && says_passed(u))
                &&& r.feedback@ == if r.passed {
                    Seq::<char>::empty()
                } else {
                    spec_trim(content@)
                }
            },
        },
{
    proof {
        reveal_strlit("signed_off");
    }
    match structured {
        Some(g) => {
            let first = if eq_str(field, "signed_off") {
                g.signed_off
            } else {
                g.passed
            };
            let second = if eq_str(field, "signed_off") {
                g.passed
            } else {
                g.signed_off
            };
            let passed = match first {
                Some(x) => x,
                None => match second {
                    Some(y) => y,
                    None => false,
                },
            };
            let mut feedback = match g.feedback {
                Some(f) => f,
                None => String::new(),
            };
            match g.missing_features {
                Some(missing) => {
                    if missing.len() > 0 {
                        if chars_of(feedback.as_str()).len() > 0 {
                            push_char(&mut feedback, '\n');
                            proof {
                                reveal_strlit("\n");
                            }
                        }
                        let list = join_comma(&missing);
                        let tail = cat("missing features: ", list.as_str());
                        feedback = cat(feedback.as_str(), tail.as_str());
                    }
                },
                None => {},
            }
            GateResult { passed, feedback }
        },
        None => {
            let upper = to_ascii_uppercase(content);
            let failed = says_failed_exec(upper.as_str());
            let passed = !failed && says_passed_exec(upper.as_str());
            let feedback = if passed {
                String::new()
            } else {
                trim(content)
            };
            GateResult { passed, feedback }
        },
    }
}

/// The verdict of a gate agent's content.
pub fn parse_pass_fail(content: &str, field: &str) -> (r: GateResult)
    ensures
        (r.passed, r.feedback@) == gate_verdict(content@, field@),
{
    let structured = structured_gate_fields(content);
    let r = gate_from_fields(content, field, structured);
    proof {
        reveal_strlit("signed_off");
    }
    r
}

// ---------------------------------------------------------------- the report

/// Whether the KPI, test and coverage gates passed, whether the goal is complete, and the
/// feedback of the gates that failed or had something to say.
#[derive(Clone, Debug)]
pub struct CompletionReport {
    pub kpis_passed: bool,
    pub tests_passed: bool,
    pub feature_coverage_signed_off: bool,
    pub complete: bool,
    pub feedback: String,
}

pub open spec fn contract_is(c: Seq<char>) -> spec_fn(AgentOutput) -> bool {
    |o: AgentOutput| o.output_contract@ == c
}

/// The verdicts of the outputs with contract `c`, in output order.
pub open spec fn verdicts(outs: Seq<AgentOutput>, c: Seq<char>, field: Seq<char>) -> Seq<
    (bool, Seq<char>),
> {
    verdicts_of(outs.filter(contract_is(c)), field)
}

pub open spec fn verdicts_of(outs: Seq<AgentOutput>, field: Seq<char>) -> Seq<(bool, Seq<char>)> {
    outs.map_values(|o: AgentOutput| gate_verdict(o.content@, field))
}

pub open spec fn all_passed(v: Seq<(bool, Seq<char>)>) -> bool {
    forall|i: int| 0 <= i < v.len() ==> (#[trigger] v[i]).0
}

pub open spec fn worth_reporting() -> spec_fn((bool, Seq<char>)) -> bool {
    |r: (bool, Seq<char>)| !r.0 || !spec_is_blank(r.1)
}

/// The lines joined by newlines.
pub open spec fn join_lines(s: Seq<Seq<char>>) -> Seq<char>
    decreases s.len(),
{
    if s.len() == 0 {
        Seq::empty()
    } else if s.len() == 1 {
        s[0]
    } else {
        join_lines(s.drop_last()) + "\n"@ + s.last()
    }
}

/// The feedback of the verdicts that failed or carry feedback, one per line.
pub open spec fn reported_feedback(v: Seq<(bool, Seq<char>)>) -> Seq<char> {
    join_lines(v.filter(worth_reporting()).map_values(|r: (bool, Seq<char>)| r.1))
}

pub open spec fn results_view(v: Seq<GateResult>) -> Seq<(bool, Seq<char>)> {
    v.map_values(|g: GateResult| (g.passed, g.feedback@))
}

/// Whether a text gives a pass/fail verdict in JSON, through `passed` or `signed_off`.
pub open spec fn gives_verdict(content: Seq<char>) -> bool {
    match structured_gate(content) {
        Some(g) => g.0 is Some || g.1 is Some,
        None => false,
    }
}

/// A KPI output that measures the targets: one that gives a verdict. An output that only
/// sets the targets gives none.
pub open spec fn measures_kpi() -> spec_fn(AgentOutput) -> bool {
    |o: AgentOutput| o.output_contract@ == "kpi"@ && gives_verdict(o.content@)
}

/// The verdicts that decide the KPI gate: the measured ones when some KPI output measures.
pub open spec fn kpi_gate(outs: Seq<AgentOutput>) -> Seq<(bool, Seq<char>)> {
    let measured = verdicts_of(outs.filter(measures_kpi()), "passed"@);
    if measured.len() > 0 {
        measured
    } else {
        verdicts(outs, "kpi"@, "passed"@)
    }
}

/// The report of an iteration's outputs.
pub open spec fn report_of(outs: Seq<AgentOutput>, r: CompletionReport) -> bool {
    let kpis = kpi_gate(outs);
    let tests = verdicts(outs, "test"@, "passed"@);
    let coverage = verdicts(outs, "coverage"@, "signed_off"@);
    &&& r.kpis_passed == (kpis.len() == 0 || all_passed(kpis))
    &&& r.tests_passed == (tests.len() > 0 && all_passed(tests))
    &&& r.feature_coverage_signed_off == (coverage.len() > 0 && all_passed(coverage))
    &&& r.complete == (r.kpis_passed && r.tests_passed && r.feature_coverage_signed_off)
    &&& r.feedback@ == reported_feedback(kpis + tests + coverage)
}

fn gate_verdicts(outputs: &Vec<AgentOutput>, contract: &str, field: &str) -> (r: Vec<GateResult>)
    ensures
        results_view(r@) == verdicts(outputs@, contract@, field@),
{
    let ghost pred = contract_is(contract@);
    let mut rs: Vec<GateResult> = Vec::new();
    let mut i: usize = 0;
    while i < outputs.len()
        invariant
            pred == contract_is(contract@),
            i <= outputs@.len(),
            results_view(rs@) =~= verdicts_of(outputs@.take(i as int).filter(pred), field@),
        decreases outputs.len() - i,
    {
        let o = &outputs[i];
        let ghost before = outputs@.take(i as int).filter(pred);
        assert(outputs@.take(i + 1).drop_last() =~= outputs@.take(i as int));
        assert(outputs@.take(i + 1).last() == outputs@[i as int]);
        proof {
            reveal(Seq::filter);
        }
        if eq_str(o.output_contract.as_str(), contract) {
            let g = parse_pass_fail(o.content.as_str(), field);
            let ghost r0 = rs@;
            rs.push(g);
            proof {
                assert(outputs@.take(i + 1).filter(pred) == before.push(*o));
                assert(rs@ =~= r0.push(g));
                assert(results_view(rs@) =~= results_view(r0).push((g.passed, g.feedback@)));
                assert(verdicts_of(before.push(*o), field@) =~= verdicts_of(before, field@).push(
                    gate_verdict(o.content@, field@),
                ));
            }
        } else {
            assert(outputs@.take(i + 1).filter(pred) == before);
        }
        i = i + 1;
    }
    assert(outputs@.take(outputs@.len() as int) =~= outputs@);
    rs
}

fn gives_verdict_exec(content: &str) -> (b: bool)
    ensures
        b == gives_verdict(content@),
{
    match structured_gate_fields(content) {
        Some(f) => f.passed.is_some() || f.signed_off.is_some(),
        None => false,
    }
}

fn measured_kpi_verdicts(outputs: &Vec<AgentOutput>) -> (r: Vec<GateResult>)
    ensures
        results_view(r@) == verdicts_of(outputs@.filter(measures_kpi()), "passed"@),
{
    proof {
        reveal_strlit("kpi");
        reveal_strlit("passed");
    }
    let ghost pred = measures_kpi();
    let mut rs: Vec<GateResult> = Vec::new();
    let mut i: usize = 0;
    while i < outputs.len()
        invariant
            pred == measures_kpi(),
            i <= outputs@.len(),
            results_view(rs@) =~= verdicts_of(outputs@.take(i as int).filter(pred), "passed"@),
        decreases outputs.len() - i,
    {
        let o = &outputs[i];
        let ghost before = outputs@.take(i as int).filter(pred);
        assert(outputs@.take(i + 1).drop_last() =~= outputs@.take(i as int));
        assert(outputs@.take(i + 1).last() == outputs@[i as int]);
        proof {
            reveal(Seq::filter);
        }
        if eq_str(o.output_contract.as_str(), "kpi") && gives_verdict_exec(o.content.as_str()) {
            let g = parse_pass_fail(o.content.as_str(), "passed");
            let ghost r0 = rs@;
            rs.push(g);
            proof {
                assert(outputs@.take(i + 1).filter(pred) == before.push(*o));
                assert(rs@ =~= r0.push(g));
                assert(results_view(rs@) =~= results_view(r0).push((g.passed, g.feedback@)));
                assert(verdicts_of(before.push(*o), "passed"@) =~= verdicts_of(before, "passed"@).push(
                    gate_verdict(o.content@, "passed"@),
                ));
            }
        } else {
            assert(outputs@.take(i + 1).filter(pred) == before);
        }
        i = i + 1;
    }
    assert(outputs@.take(outputs@.len() as int) =~= outputs@);
    rs
}

fn all_pass(rs: &Vec<GateResult>) -> (b: bool)
    ensures
        b == all_passed(results_view(rs@)),
{
    let mut i: usize = 0;
    while i < rs.len()
        invariant
            i <= rs@.len(),
            forall|k: int| 0 <= k < i ==> (#[trigger] rs@[k]).passed,
        decreases rs.len() - i,
    {
        if !rs[i].passed {
            assert(!results_view(rs@)[i as int].0);
            return false;
        }
        i = i + 1;
    }
    assert forall|k: int| 0 <= k < results_view(rs@).len() implies (#[trigger] results_view(
        rs@,
    )[k]).0 by {
        assert(rs@[k].passed);
    }
    true
}

fn feedback_lines(rs: &Vec<GateResult>) -> (r: String)
    ensures
        r@ == reported_feedback(results_view(rs@)),
{
    let ghost v = results_view(rs@);
    let ghost pred = worth_reporting();
    let mut out = String::new();
    let mut any = false;
    let mut i: usize = 0;
    while i < rs.len()
        invariant
            v == results_view(rs@),
            pred == worth_reporting(),
            i <= rs@.len(),
            out@ == join_lines(v.take(i as int).filter(pred).map_values(|r: (bool, Seq<char>)| r.1)),
            any == (v.take(i as int).filter(pred).len() > 0),
        decreases rs.len() - i,
    {
        let g = &rs[i];
        let ghost before = v.take(i as int).filter(pred);
        assert(v.take(i + 1).drop_last() =~= v.take(i as int));
        assert(v.take(i + 1).last() == v[i as int]);
        assert(v[i as int] == (g.passed, g.feedback@));
        proof {
            reveal(Seq::filter);
        }
        if !g.passed || !is_blank(g.feedback.as_str()) {
            if any {
                let with_break = cat(out.as_str(), "\n");
                out = cat(with_break.as_str(), g.feedback.as_str());
            } else {
                out = owned(g.feedback.as_str());
            }
            proof {
                let after = v.take(i + 1).filter(pred);
                assert(after == before.push(v[i as int]));
                let m0 = before.map_values(|r: (bool, Seq<char>)| r.1);
                let m1 = after.map_values(|r: (bool, Seq<char>)| r.1);
                assert(m1.drop_last() =~= m0);
                assert(m1.last() == g.feedback@);
            }
            any = true;
        } else {
            assert(v.take(i + 1).filter(pred) == before);
        }
        i = i + 1;
    }
    assert(v.take(v.len() as int) =~= v);
    out
}

impl CompletionReport {
    /// Evaluates the gates of an iteration: the KPI measurements passed (when no KPI output
    /// gives a verdict, every KPI output must pass; there may be none), there are test agents
    /// and all passed, there are coverage agents and all signed off. The goal is complete
    /// exactly when all three hold.
    pub fn evaluate(outputs: &Vec<AgentOutput>) -> (r: Self)
        ensures
            report_of(outputs@, r),
    {
        proof {
            reveal_strlit("kpi");
            reveal_strlit("test");
            reveal_strlit("coverage");
            reveal_strlit("passed");
            reveal_strlit("signed_off");
        }
        let measured = measured_kpi_verdicts(outputs);
        let mut kpis = if measured.len() > 0 {
            measured
        } else {
            gate_verdicts(outputs, "kpi", "passed")
        };
        let mut tests = gate_verdicts(outputs, "test", "passed");
        let mut coverage = gate_verdicts(outputs, "coverage", "signed_off");
        let kpis_passed = kpis.len() == 0 || all_pass(&kpis);
        let tests_passed = tests.len() > 0 && all_pass(&tests);
        let feature_coverage_signed_off = coverage.len() > 0 && all_pass(&coverage);
        let complete = kpis_passed && tests_passed && feature_coverage_signed_off;
        let ghost k = results_view(kpis@);
        let ghost t = results_view(tests@);
        let ghost c = results_view(coverage@);
        let mut all: Vec<GateResult> = Vec::new();
        all.append(&mut kpis);
        all.append(&mut tests);
        all.append(&mut coverage);
        assert(results_view(all@) =~= k + t + c);
        let feedback = feedback_lines(&all);
        CompletionReport {
            kpis_passed,
            tests_passed,
            feature_coverage_signed_off,
            complete,
            feedback,
        }
    }
}

proof fn lemma_filter_weaken(s: Seq<AgentOutput>, p: spec_fn(AgentOutput) -> bool, q: spec_fn(
    AgentOutput,
) -> bool)
    requires
        forall|x: AgentOutput| #[trigger] p(x) ==> q(x),
        s.filter(p).len() > 0,
    ensures
        s.filter(q).len() > 0,
    decreases s.len(),
{
    reveal(Seq::filter);
    if s.len() > 0 && !q(s.last()) {
        assert(!p(s.last()));
        lemma_filter_weaken(s.drop_last(), p, q);
    }
}

/// The goal is complete exactly when the KPI, test and coverage gates all pass; when some KPI
/// output measures, the measurements alone decide the KPI gate; an iteration without KPI
/// agents does not fail on KPIs.
pub proof fn lemma_complete_iff_all_gates(outs: Seq<AgentOutput>, r: CompletionReport)
    requires
        report_of(outs, r),
    ensures
        r.complete <==> (r.kpis_passed && r.tests_passed && r.feature_coverage_signed_off),
        outs.filter(measures_kpi()).len() > 0 ==> (r.kpis_passed <==> all_passed(
            verdicts_of(outs.filter(measures_kpi()), "passed"@),
        )),
        verdicts(outs, "kpi"@, "passed"@).len() == 0 ==> r.kpis_passed,
        verdicts(outs, "test"@, "passed"@).len() == 0 ==> !r.complete,
        verdicts(outs, "coverage"@, "signed_off"@).len() == 0 ==> !r.complete,
{
    if outs.filter(measures_kpi()).len() > 0 {
        lemma_filter_weaken(outs, measures_kpi(), contract_is("kpi"@));
    }
}

proof fn lemma_object_end(s: Seq<char>, i: int, depth: nat, in_string: bool, escaped: bool)
    ensures
        object_end(s, i, depth, in_string, escaped) matches Some(e) ==> 0 <= i < e <= s.len()
            && s[e - 1] == '}',
    decreases s.len() - i,
{
    if i >= s.len() || i < 0 {
    } else if escaped {
        lemma_object_end(s, i + 1, depth, in_string, false);
    } else if s[i] == '\\' && in_string {
        lemma_object_end(s, i + 1, depth, in_string, true);
    } else if s[i] == '"' {
        lemma_object_end(s, i + 1, depth, !in_string, false);
    } else if s[i] == '{' && !in_string {
        lemma_object_end(s, i + 1, depth + 1, in_string, false);
    } else if s[i] == '}' && !in_string {
        let d: nat = if depth == 0 {
            0
        } else {
            (depth - 1) as nat
        };
        if d != 0 {
            lemma_object_end(s, i + 1, d, in_string, false);
        }
    } else {
        lemma_object_end(s, i + 1, depth, in_string, false);
    }
}

proof fn lemma_index_of_char(s: Seq<char>, c: char, i: int)
    requires
        0 <= i,
    ensures
        i <= index_of_char(s, c, i) <= s.len() || (i > s.len() && index_of_char(s, c, i) == s.len()),
        index_of_char(s, c, i) < s.len() ==> s[index_of_char(s, c, i)] == c,
    decreases s.len() - i,
{
    if i < s.len() && s[i] != c {
        lemma_index_of_char(s, c, i + 1);
    }
}

/// What is taken out of a text as its JSON object is a piece of the text that opens with
/// `{` and closes with `}`.
pub proof fn lemma_extracted_object_is_braced(s: Seq<char>)
    ensures
        extract_json_spec(s) matches Some(t) ==> t.len() >= 2 && t[0] == '{' && t.last() == '}'
            && exists|a: int|
            0 <= a && a + t.len() <= s.len() && #[trigger] s.subrange(a, a + t.len()) == t,
{
    let start = index_of_char(s, '{', 0);
    lemma_index_of_char(s, '{', 0);
    if start < s.len() {
        lemma_object_end(s, start, 0, false, false);
        match object_end(s, start, 0, false, false) {
            Some(end) => {
                let t = s.subrange(start, end);
                assert(s[start] == '{');
                if end == start + 1 {
                    assert(s[end - 1] == '{');
                }
                assert(t[0] == s[start]);
                assert(t.last() == s[end - 1]);
                assert(s.subrange(start, start + t.len()) == t);
            },
            None => {},
        }
    }
}

} // verus!
