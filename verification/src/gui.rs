//! The graphical editor's reading and rewriting of workflow files: it works on the text,
//! line by line, and leaves every part it does not change as it was.
use vstd::prelude::*;
use crate::split::{
    concat_with, lemma_split_from_count, lemma_split_rejoins, copy_vec, find_exec, find_from, join, join_exec, lemma_find_from_bounds, lemma_views_push,
    lines_exec, push_all, spec_lines, spec_split, split_exec, sub_vec, trim_start_vec, trim_vec,
    views,
};
use crate::text::{
    chars_of, decimal, decimal_spec, digit_char, eq_str, is_blank, is_empty_str, occurs_at, occurs_at_exec, owned,
    spec_is_blank,
    spec_starts_with, spec_trim, string_from_chars, trim, trim_start,
};
use crate::config::{opt_view, join3, DEFAULT_CONFIG_PATH};
use crate::paths::{file_name, parent, path_file_name, path_parent};
use crate::text::cat;
use crate::goal::GoalRequest;
use crate::settings::Settings;
use vstd::relations::injective_on;
use vstd::set_lib::{lemma_int_range, lemma_len_subset, lemma_map_size, set_int_range};

verus! {

/// What follows `key`, optional spaces and `=` on a trimmed line, itself trimmed; `None` where
/// the line is no such assignment.
pub open spec fn assigned_value(line: Seq<char>, key: Seq<char>) -> Option<Seq<char>> {
    let t = spec_trim(line);
    if spec_starts_with(t, key) {
        let r = trim_start(t.subrange(key.len() as int, t.len() as int));
        if r.len() > 0 && r[0] == '=' {
            Some(spec_trim(r.drop_first()))
        } else {
            None
        }
    } else {
        None
    }
}

/// For a value that opens with a double quote, what follows it up to the next one (or to the end).
pub open spec fn quoted_value(v: Seq<char>) -> Option<Seq<char>> {
    if v.len() > 0 && v[0] == '"' {
        let rest = v.drop_first();
        let q = find_from(rest, seq!['"'], 0);
        Some(
            if q < 0 {
                rest
            } else {
                rest.take(q)
            },
        )
    } else {
        None
    }
}

pub open spec fn line_string_field(line: Seq<char>, key: Seq<char>) -> Option<Seq<char>> {
    match assigned_value(line, key) {
        Some(v) => quoted_value(v),
        None => None,
    }
}

/// The quoted value of `key` on the first line, from the `k`-th on, that gives one.
pub open spec fn first_string_field(lines: Seq<Seq<char>>, key: Seq<char>, k: int) -> Option<
    Seq<char>,
>
    decreases lines.len() - k,
{
    if k < 0 || k >= lines.len() {
        None
    } else {
        match line_string_field(lines[k], key) {
            Some(v) => Some(v),
            None => first_string_field(lines, key, k + 1),
        }
    }
}

pub open spec fn string_field_spec(block: Seq<char>, key: Seq<char>) -> Option<Seq<char>> {
    first_string_field(spec_lines(block), key, 0)
}

/// `s` without the copies of `c` it starts with.
pub open spec fn strip_leading(s: Seq<char>, c: char) -> Seq<char>
    decreases s.len(),
{
    if s.len() > 0 && s[0] == c {
        strip_leading(s.drop_first(), c)
    } else {
        s
    }
}

/// `s` without the copies of `c` it ends with.
pub open spec fn strip_trailing(s: Seq<char>, c: char) -> Seq<char>
    decreases s.len(),
{
    if s.len() > 0 && s.last() == c {
        strip_trailing(s.drop_last(), c)
    } else {
        s
    }
}

/// One comma-separated array item: trimmed, then without the quotes around it.
pub open spec fn array_item(piece: Seq<char>) -> Seq<char> {
    strip_trailing(strip_leading(spec_trim(piece), '"'), '"')
}

/// The non-empty items of the pieces, in order.
pub open spec fn kept_items(pieces: Seq<Seq<char>>) -> Seq<Seq<char>>
    decreases pieces.len(),
{
    if pieces.len() == 0 {
        seq![]
    } else {
        let rest = kept_items(pieces.drop_last());
        let item = array_item(pieces.last());
        if item.len() > 0 {
            rest.push(item)
        } else {
            rest
        }
    }
}

/// The items of an inline array value such as `["a", "b"]`.
pub open spec fn array_items(v: Seq<char>) -> Seq<Seq<char>> {
    kept_items(spec_split(strip_trailing(strip_leading(v, '['), ']'), seq![',']))
}

/// The items of the first line, from the `k`-th on, that assigns `key`; none if no line does.
pub open spec fn first_array_field(lines: Seq<Seq<char>>, key: Seq<char>, k: int) -> Seq<
    Seq<char>,
>
    decreases lines.len() - k,
{
    if k < 0 || k >= lines.len() {
        seq![]
    } else {
        match assigned_value(lines[k], key) {
            Some(v) => array_items(v),
            None => first_array_field(lines, key, k + 1),
        }
    }
}

pub open spec fn array_field_spec(block: Seq<char>, key: Seq<char>) -> Seq<Seq<char>> {
    first_array_field(spec_lines(block), key, 0)
}

/// The text between the first two double quotes of `p`, where it has two.
pub open spec fn between_quotes(p: Seq<char>) -> Option<Seq<char>> {
    let q1 = find_from(p, seq!['"'], 0);
    if q1 < 0 {
        None
    } else {
        let rest = p.subrange(q1 + 1, p.len() as int);
        let q2 = find_from(rest, seq!['"'], 0);
        if q2 < 0 {
            None
        } else {
            Some(rest.take(q2))
        }
    }
}

/// The quoted names that the pieces hold, in order.
pub open spec fn kept_sources(pieces: Seq<Seq<char>>) -> Seq<Seq<char>>
    decreases pieces.len(),
{
    if pieces.len() == 0 {
        seq![]
    } else {
        let rest = kept_sources(pieces.drop_last());
        match between_quotes(pieces.last()) {
            Some(s) => rest.push(s),
            None => rest,
        }
    }
}

/// The sources listed in the first bracketed list after the first `inputs` of a node block.
pub open spec fn input_sources_spec(block: Seq<char>) -> Seq<Seq<char>> {
    let start = find_from(block, "inputs"@, 0);
    if start < 0 {
        seq![]
    } else {
        let value = block.subrange(start, block.len() as int);
        let open = find_from(value, seq!['['], 0);
        if open < 0 {
            seq![]
        } else {
            let close = find_from(value.subrange(open, value.len() as int), seq![']'], 0);
            if close < 0 {
                seq![]
            } else {
                kept_sources(
                    spec_split(value.subrange(open + 1, open + close), "source"@).drop_first(),
                )
            }
        }
    }
}

fn one_char(c: char) -> (r: Vec<char>)
    ensures
        r@ == seq![c],
{
    let mut r: Vec<char> = Vec::new();
    r.push(c);
    assert(r@ =~= seq![c]);
    r
}

fn assigned_value_exec(line: &Vec<char>, key: &Vec<char>) -> (r: Option<Vec<char>>)
    ensures
        match r {
            Some(v) => assigned_value(line@, key@) == Some(v@),
            None => assigned_value(line@, key@) is None,
        },
{
    let t = trim_vec(line);
    if !occurs_at_exec(&t, key, 0) {
        return None;
    }
    let after = sub_vec(&t, key.len(), t.len());
    let r = trim_start_vec(&after);
    if r.len() > 0 && r[0] == '=' {
        let rest = sub_vec(&r, 1, r.len());
        assert(rest@ =~= r@.drop_first());
        Some(trim_vec(&rest))
    } else {
        None
    }
}

fn quoted_value_exec(v: &Vec<char>) -> (r: Option<Vec<char>>)
    ensures
        match r {
            Some(x) => quoted_value(v@) == Some(x@),
            None => quoted_value(v@) is None,
        },
{
    if v.len() > 0 && v[0] == '"' {
        let rest = sub_vec(v, 1, v.len());
        assert(rest@ =~= v@.drop_first());
        let quote = one_char('"');
        match find_exec(&rest, &quote, 0) {
            None => Some(rest),
            Some(q) => {
                proof {
                    lemma_find_from_bounds(rest@, seq!['"'], 0);
                }
                let r = sub_vec(&rest, 0, q);
                assert(r@ =~= rest@.take(q as int));
                Some(r)
            },
        }
    } else {
        None
    }
}

fn string_field_vec(block: &Vec<char>, key: &Vec<char>) -> (r: Option<Vec<char>>)
    ensures
        match r {
            Some(x) => string_field_spec(block@, key@) == Some(x@),
            None => string_field_spec(block@, key@) is None,
        },
{
    let lines = lines_exec(block);
    let ghost ls = spec_lines(block@);
    let mut k: usize = 0;
    while k < lines.len()
        invariant
            views(lines@) == ls,
            ls == spec_lines(block@),
            k <= lines@.len(),
            first_string_field(ls, key@, 0) == first_string_field(ls, key@, k as int),
        decreases lines.len() - k,
    {
        assert(ls[k as int] == lines@[k as int]@);
        let found = match assigned_value_exec(&lines[k], key) {
            Some(v) => quoted_value_exec(&v),
            None => None,
        };
        match found {
            Some(x) => {
                return Some(x);
            },
            None => {},
        }
        k = k + 1;
    }
    None
}

/// The quoted value that the first `key = "..."` line of `block` gives.
pub fn string_field(block: &str, key: &str) -> (r: Option<String>)
    ensures
        match r {
            Some(x) => string_field_spec(block@, key@) == Some(x@),
            None => string_field_spec(block@, key@) is None,
        },
{
    let b = chars_of(block);
    let k = chars_of(key);
    match string_field_vec(&b, &k) {
        Some(x) => Some(string_from_chars(&x)),
        None => None,
    }
}

proof fn lemma_strip_leading_skip(s: Seq<char>, c: char, i: int)
    requires
        0 <= i <= s.len(),
        forall|k: int| 0 <= k < i ==> s[k] == c,
    ensures
        strip_leading(s, c) == strip_leading(s.subrange(i, s.len() as int), c),
    decreases i,
{
    if i > 0 {
        lemma_strip_leading_skip(s.drop_first(), c, i - 1);
        assert(s.drop_first().subrange(i - 1, s.drop_first().len() as int) =~= s.subrange(
            i,
            s.len() as int,
        ));
    } else {
        assert(s.subrange(0, s.len() as int) =~= s);
    }
}

proof fn lemma_strip_trailing_cut(s: Seq<char>, c: char, j: int)
    requires
        0 <= j <= s.len(),
        forall|k: int| j <= k < s.len() ==> s[k] == c,
    ensures
        strip_trailing(s, c) == strip_trailing(s.subrange(0, j), c),
    decreases s.len() - j,
{
    if j < s.len() {
        lemma_strip_trailing_cut(s.drop_last(), c, j);
        assert(s.drop_last().subrange(0, j) =~= s.subrange(0, j));
    } else {
        assert(s.subrange(0, j) =~= s);
    }
}

fn strip_leading_exec(v: &Vec<char>, c: char) -> (r: Vec<char>)
    ensures
        r@ == strip_leading(v@, c),
{
    let mut i: usize = 0;
    while i < v.len() && v[i] == c
        invariant
            i <= v@.len(),
            forall|k: int| 0 <= k < i ==> v@[k] == c,
        decreases v.len() - i,
    {
        i = i + 1;
    }
    proof {
        lemma_strip_leading_skip(v@, c, i as int);
    }
    let r = sub_vec(v, i, v.len());
    assert(strip_leading(r@, c) == r@);
    r
}

fn strip_trailing_exec(v: &Vec<char>, c: char) -> (r: Vec<char>)
    ensures
        r@ == strip_trailing(v@, c),
{
    let mut j: usize = v.len();
    while j > 0 && v[j - 1] == c
        invariant
            j <= v@.len(),
            forall|k: int| j <= k < v@.len() ==> v@[k] == c,
        decreases j,
    {
        j = j - 1;
    }
    proof {
        lemma_strip_trailing_cut(v@, c, j as int);
    }
    let r = sub_vec(v, 0, j);
    proof {
        if r@.len() > 0 {
            assert(r@.last() == v@[j - 1]);
        }
    }
    assert(strip_trailing(r@, c) == r@);
    r
}

fn array_items_exec(v: &Vec<char>) -> (r: Vec<Vec<char>>)
    ensures
        views(r@) == array_items(v@),
{
    let a = strip_leading_exec(v, '[');
    let inner = strip_trailing_exec(&a, ']');
    let comma = one_char(',');
    let pieces = split_exec(&inner, &comma);
    let ghost ps = views(pieces@);
    let mut out: Vec<Vec<char>> = Vec::new();
    let mut k: usize = 0;
    assert(views(out@) =~= seq![]);
    assert(ps.take(0) =~= seq![]);
    while k < pieces.len()
        invariant
            ps == views(pieces@),
            k <= pieces@.len(),
            views(out@) == kept_items(ps.take(k as int)),
        decreases pieces.len() - k,
    {
        let t = trim_vec(&pieces[k]);
        let t1 = strip_leading_exec(&t, '"');
        let item = strip_trailing_exec(&t1, '"');
        proof {
            let now = ps.take(k + 1);
            assert(now.drop_last() =~= ps.take(k as int));
            assert(now.last() == pieces@[k as int]@);
        }
        if item.len() > 0 {
            proof {
                lemma_views_push(out@, item);
            }
            out.push(item);
        }
        k = k + 1;
    }
    assert(ps.take(pieces@.len() as int) =~= ps);
    out
}

fn array_field_vec(block: &Vec<char>, key: &Vec<char>) -> (r: Vec<Vec<char>>)
    ensures
        views(r@) == array_field_spec(block@, key@),
{
    let lines = lines_exec(block);
    let ghost ls = spec_lines(block@);
    let mut k: usize = 0;
    while k < lines.len()
        invariant
            views(lines@) == ls,
            ls == spec_lines(block@),
            k <= lines@.len(),
            first_array_field(ls, key@, 0) == first_array_field(ls, key@, k as int),
        decreases lines.len() - k,
    {
        assert(ls[k as int] == lines@[k as int]@);
        match assigned_value_exec(&lines[k], key) {
            Some(v) => {
                return array_items_exec(&v);
            },
            None => {},
        }
        k = k + 1;
    }
    let r: Vec<Vec<char>> = Vec::new();
    assert(views(r@) =~= seq![]);
    r
}

fn strings_of(v: &Vec<Vec<char>>) -> (r: Vec<String>)
    ensures
        r@.len() == v@.len(),
        forall|k: int| 0 <= k < v@.len() ==> #[trigger] r@[k]@ == v@[k]@,
{
    let mut r: Vec<String> = Vec::new();
    let mut k: usize = 0;
    while k < v.len()
        invariant
            k <= v@.len(),
            r@.len() == k,
            forall|m: int| 0 <= m < k ==> #[trigger] r@[m]@ == v@[m]@,
        decreases v.len() - k,
    {
        r.push(string_from_chars(&v[k]));
        k = k + 1;
    }
    r
}

/// The items of the first `key = [...]` line of `block`; none where no line assigns `key`.
pub fn array_field(block: &str, key: &str) -> (r: Vec<String>)
    ensures
        r@.len() == array_field_spec(block@, key@).len(),
        forall|k: int| 0 <= k < r@.len() ==> #[trigger] r@[k]@ == array_field_spec(block@, key@)[k],
{
    let b = chars_of(block);
    let k = chars_of(key);
    let items = array_field_vec(&b, &k);
    let r = strings_of(&items);
    proof {
        assert forall|m: int| 0 <= m < r@.len() implies #[trigger] r@[m]@ == array_field_spec(
            block@,
            key@,
        )[m] by {
            assert(views(items@)[m] == items@[m]@);
        }
    }
    r
}

fn between_quotes_exec(p: &Vec<char>) -> (r: Option<Vec<char>>)
    ensures
        match r {
            Some(x) => between_quotes(p@) == Some(x@),
            None => between_quotes(p@) is None,
        },
{
    let quote = one_char('"');
    match find_exec(p, &quote, 0) {
        None => None,
        Some(q1) => {
            proof {
                lemma_find_from_bounds(p@, seq!['"'], 0);
            }
            let pl = p.len();
            assert(q1 < pl);
            let rest = sub_vec(p, q1 + 1, pl);
            match find_exec(&rest, &quote, 0) {
                None => None,
                Some(q2) => {
                    proof {
                        lemma_find_from_bounds(rest@, seq!['"'], 0);
                    }
                    let x = sub_vec(&rest, 0, q2);
                    assert(x@ =~= rest@.take(q2 as int));
                    Some(x)
                },
            }
        },
    }
}

fn input_sources_vec(block: &Vec<char>) -> (r: Vec<Vec<char>>)
    ensures
        views(r@) == input_sources_spec(block@),
{
    let empty: Vec<Vec<char>> = Vec::new();
    assert(views(empty@) =~= seq![]);
    let word = chars_of("inputs");
    proof {
        reveal_strlit("inputs");
    }
    let start = match find_exec(block, &word, 0) {
        None => {
            return empty;
        },
        Some(s) => s,
    };
    proof {
        lemma_find_from_bounds(block@, "inputs"@, 0);
    }
    let value = sub_vec(block, start, block.len());
    let open_br = one_char('[');
    let open = match find_exec(&value, &open_br, 0) {
        None => {
            return empty;
        },
        Some(o) => o,
    };
    proof {
        lemma_find_from_bounds(value@, seq!['['], 0);
    }
    let tail = sub_vec(&value, open, value.len());
    let close_br = one_char(']');
    let close = match find_exec(&tail, &close_br, 0) {
        None => {
            return empty;
        },
        Some(c) => c,
    };
    proof {
        lemma_find_from_bounds(tail@, seq![']'], 0);
        assert(tail@[0] == '[');
        if close == 0 {
            assert(tail@.subrange(0, 1)[0] == ']');
        }
    }
    let inner = sub_vec(&value, open + 1, open + close);
    let source_word = chars_of("source");
    proof {
        reveal_strlit("source");
    }
    let pieces = split_exec(&inner, &source_word);
    let ghost ps = views(pieces@);
    let mut out: Vec<Vec<char>> = Vec::new();
    let mut k: usize = 1;
    assert(views(out@) =~= seq![]);
    assert(ps.drop_first().take(0) =~= seq![]);
    while k < pieces.len()
        invariant
            ps == views(pieces@),
            1 <= k,
            ps.len() >= 1,
            k <= pieces@.len(),
            views(out@) == kept_sources(ps.drop_first().take(k - 1)),
        decreases pieces.len() - k,
    {
        let found = between_quotes_exec(&pieces[k]);
        proof {
            let now = ps.drop_first().take(k as int);
            assert(now.drop_last() =~= ps.drop_first().take(k - 1));
            assert(now.last() == pieces@[k as int]@);
        }
        match found {
            Some(x) => {
                proof {
                    lemma_views_push(out@, x);
                }
                out.push(x);
            },
            None => {},
        }
        k = k + 1;
    }
    assert(ps.drop_first().take(pieces@.len() - 1) =~= ps.drop_first());
    out
}

/// The sources that a node block lists under `inputs`.
pub fn input_sources_field(block: &str) -> (r: Vec<String>)
    ensures
        r@.len() == input_sources_spec(block@).len(),
        forall|k: int| 0 <= k < r@.len() ==> #[trigger] r@[k]@ == input_sources_spec(block@)[k],
{
    let b = chars_of(block);
    let items = input_sources_vec(&b);
    let r = strings_of(&items);
    proof {
        assert forall|m: int| 0 <= m < r@.len() implies #[trigger] r@[m]@ == input_sources_spec(
            block@,
        )[m] by {
            assert(views(items@)[m] == items@[m]@);
        }
    }
    r
}

/// The character sequences that a vector of strings holds.
pub open spec fn string_views(v: Seq<String>) -> Seq<Seq<char>> {
    v.map_values(|s: String| s@)
}

pub open spec fn or_default(o: Option<Seq<char>>, d: Seq<char>) -> Seq<char> {
    match o {
        Some(v) => v,
        None => d,
    }
}

/// A node as the editor shows it.
#[derive(Clone, Debug)]
pub struct WorkflowNodeView {
    pub id: String,
    pub kind: String,
    pub evaluation: String,
    pub contract: String,
    pub instruction: String,
    pub depends_on: Vec<String>,
    pub inputs: Vec<String>,
}

/// The fields in the order they are declared.
pub type NodeFields = (
    Seq<char>,
    Seq<char>,
    Seq<char>,
    Seq<char>,
    Seq<char>,
    Seq<Seq<char>>,
    Seq<Seq<char>>,
);

impl View for WorkflowNodeView {
    type V = NodeFields;

    open spec fn view(&self) -> NodeFields {
        (
            self.id@,
            self.kind@,
            self.evaluation@,
            self.contract@,
            self.instruction@,
            string_views(self.depends_on@),
            string_views(self.inputs@),
        )
    }
}

/// A connection as the editor shows it.
#[derive(Clone, Debug)]
pub struct WorkflowConnectionView {
    pub from_id: String,
    pub to_ids: Vec<String>,
    pub condition: Option<String>,
}

/// Source, targets and condition.
pub type ConnectionFields = (Seq<char>, Seq<Seq<char>>, Option<Seq<char>>);

impl View for WorkflowConnectionView {
    type V = ConnectionFields;

    open spec fn view(&self) -> ConnectionFields {
        (self.from_id@, string_views(self.to_ids@), opt_view(self.condition))
    }
}

pub open spec fn nodes_header() -> Seq<char> {
    "[[orchestration.nodes]]"@
}

pub open spec fn connections_header() -> Seq<char> {
    "[[orchestration.connections]]"@
}

/// The node that a block after a node header describes; fields it does not set take the
/// editor's defaults.
pub open spec fn node_of_block(b: Seq<char>) -> NodeFields {
    (
        or_default(string_field_spec(b, "id"@), "agent"@),
        or_default(string_field_spec(b, "kind"@), "agent"@),
        or_default(string_field_spec(b, "evaluation"@), seq![]),
        or_default(string_field_spec(b, "output_contract"@), "implementation"@),
        or_default(string_field_spec(b, "instruction"@), seq![]),
        array_field_spec(b, "depends_on"@),
        input_sources_spec(b),
    )
}

/// The text after each node header, in order.
pub open spec fn node_blocks(content: Seq<char>) -> Seq<Seq<char>> {
    spec_split(content, nodes_header()).drop_first()
}

pub open spec fn nodes_spec(content: Seq<char>) -> Seq<NodeFields> {
    node_blocks(content).map_values(|b: Seq<char>| node_of_block(b))
}

/// The connection that a block after a connection header describes, where it names a source
/// and at least one target.
pub open spec fn connection_of_block(b: Seq<char>) -> Option<ConnectionFields> {
    match string_field_spec(b, "from"@) {
        None => None,
        Some(from) => {
            let to = array_field_spec(b, "to"@);
            if to.len() == 0 {
                None
            } else {
                Some((from, to, string_field_spec(b, "condition"@)))
            }
        },
    }
}

pub open spec fn kept_connections(blocks: Seq<Seq<char>>) -> Seq<ConnectionFields>
    decreases blocks.len(),
{
    if blocks.len() == 0 {
        seq![]
    } else {
        let rest = kept_connections(blocks.drop_last());
        match connection_of_block(blocks.last()) {
            Some(c) => rest.push(c),
            None => rest,
        }
    }
}

pub open spec fn connection_blocks(content: Seq<char>) -> Seq<Seq<char>> {
    spec_split(content, connections_header()).drop_first()
}

pub open spec fn connections_spec(content: Seq<char>) -> Seq<ConnectionFields> {
    kept_connections(connection_blocks(content))
}

proof fn strings_view_lemma(r: Seq<String>, v: Seq<Vec<char>>)
    requires
        r.len() == v.len(),
        forall|k: int| 0 <= k < v.len() ==> #[trigger] r[k]@ == v[k]@,
    ensures
        string_views(r) == views(v),
{
    assert(string_views(r) =~= views(v));
}

fn node_from_block(b: &Vec<char>) -> (n: WorkflowNodeView)
    ensures
        n@ == node_of_block(b@),
{
    proof {
        reveal_strlit("agent");
        reveal_strlit("implementation");
    }
    let id = match string_field_vec(b, &chars_of("id")) {
        Some(x) => string_from_chars(&x),
        None => owned("agent"),
    };
    let kind = match string_field_vec(b, &chars_of("kind")) {
        Some(x) => string_from_chars(&x),
        None => owned("agent"),
    };
    let evaluation = match string_field_vec(b, &chars_of("evaluation")) {
        Some(x) => string_from_chars(&x),
        None => String::new(),
    };
    let contract = match string_field_vec(b, &chars_of("output_contract")) {
        Some(x) => string_from_chars(&x),
        None => owned("implementation"),
    };
    let instruction = match string_field_vec(b, &chars_of("instruction")) {
        Some(x) => string_from_chars(&x),
        None => String::new(),
    };
    let deps = array_field_vec(b, &chars_of("depends_on"));
    let depends_on = strings_of(&deps);
    let ins = input_sources_vec(b);
    let inputs = strings_of(&ins);
    proof {
        strings_view_lemma(depends_on@, deps@);
        strings_view_lemma(inputs@, ins@);
    }
    WorkflowNodeView { id, kind, evaluation, contract, instruction, depends_on, inputs }
}

/// The nodes of a workflow file, one for each node header, in order.
pub fn parse_workflow_nodes(content: &str) -> (r: Vec<WorkflowNodeView>)
    ensures
        r@.map_values(|n: WorkflowNodeView| n@) == nodes_spec(content@),
{
    let c = chars_of(content);
    let header = chars_of("[[orchestration.nodes]]");
    proof {
        reveal_strlit("[[orchestration.nodes]]");
    }
    let blocks = split_exec(&c, &header);
    let ghost bs = views(blocks@);
    assert(bs.len() >= 1);
    let mut out: Vec<WorkflowNodeView> = Vec::new();
    let mut k: usize = 1;
    while k < blocks.len()
        invariant
            bs == views(blocks@),
            bs == spec_split(content@, nodes_header()),
            1 <= k <= blocks@.len(),
            out@.len() == k - 1,
            forall|m: int| 0 <= m < out@.len() ==> #[trigger] out@[m]@ == node_of_block(bs[m + 1]),
        decreases blocks.len() - k,
    {
        let n = node_from_block(&blocks[k]);
        out.push(n);
        k = k + 1;
    }
    assert(out@.map_values(|n: WorkflowNodeView| n@) =~= nodes_spec(content@));
    out
}

fn connection_from_block(b: &Vec<char>) -> (r: Option<WorkflowConnectionView>)
    ensures
        match r {
            Some(c) => connection_of_block(b@) == Some(c@),
            None => connection_of_block(b@) is None,
        },
{
    let from = match string_field_vec(b, &chars_of("from")) {
        Some(x) => x,
        None => {
            return None;
        },
    };
    let to = array_field_vec(b, &chars_of("to"));
    if to.len() == 0 {
        return None;
    }
    let condition = match string_field_vec(b, &chars_of("condition")) {
        Some(x) => Some(string_from_chars(&x)),
        None => None,
    };
    let to_ids = strings_of(&to);
    proof {
        strings_view_lemma(to_ids@, to@);
    }
    Some(WorkflowConnectionView { from_id: string_from_chars(&from), to_ids, condition })
}

/// The connections of a workflow file that name a source and at least one target, in order.
pub fn parse_workflow_connections(content: &str) -> (r: Vec<WorkflowConnectionView>)
    ensures
        r@.map_values(|c: WorkflowConnectionView| c@) == connections_spec(content@),
{
    let c = chars_of(content);
    let header = chars_of("[[orchestration.connections]]");
    proof {
        reveal_strlit("[[orchestration.connections]]");
    }
    let blocks = split_exec(&c, &header);
    let ghost bs = views(blocks@);
    let mut out: Vec<WorkflowConnectionView> = Vec::new();
    let mut k: usize = 1;
    proof {
        assert(bs.len() >= 1);
        assert(bs.drop_first().take(0) =~= seq![]);
        assert(out@.map_values(|c: WorkflowConnectionView| c@) =~= seq![]);
    }
    while k < blocks.len()
        invariant
            bs == views(blocks@),
            bs == spec_split(content@, connections_header()),
            bs.len() >= 1,
            1 <= k <= blocks@.len(),
            out@.map_values(|c: WorkflowConnectionView| c@) == kept_connections(
                bs.drop_first().take(k - 1),
            ),
        decreases blocks.len() - k,
    {
        let found = connection_from_block(&blocks[k]);
        proof {
            let now = bs.drop_first().take(k as int);
            assert(now.drop_last() =~= bs.drop_first().take(k - 1));
            assert(now.last() == blocks@[k as int]@);
        }
        match found {
            Some(conn) => {
                let ghost before = out@;
                out.push(conn);
                assert(out@.map_values(|c: WorkflowConnectionView| c@) =~= before.map_values(
                    |c: WorkflowConnectionView| c@,
                ).push(conn@));
            },
            None => {},
        }
        k = k + 1;
    }
    assert(bs.drop_first().take(blocks@.len() - 1) =~= bs.drop_first());
    out
}

pub open spec fn escape_char(c: char) -> Seq<char> {
    if c == '\\' {
        seq!['\\', '\\']
    } else if c == '"' {
        seq!['\\', '"']
    } else {
        seq![c]
    }
}

/// Backslashes doubled and double quotes escaped, for a basic TOML string.
pub open spec fn escape_toml_spec(s: Seq<char>) -> Seq<char>
    decreases s.len(),
{
    if s.len() == 0 {
        seq![]
    } else {
        escape_toml_spec(s.drop_last()) + escape_char(s.last())
    }
}

fn escape_vec(v: &Vec<char>) -> (r: Vec<char>)
    ensures
        r@ == escape_toml_spec(v@),
{
    let mut out: Vec<char> = Vec::new();
    let mut k: usize = 0;
    assert(v@.take(0) =~= seq![]);
    while k < v.len()
        invariant
            k <= v@.len(),
            out@ == escape_toml_spec(v@.take(k as int)),
        decreases v.len() - k,
    {
        let c = v[k];
        if c == '\\' {
            out.push('\\');
            out.push('\\');
        } else if c == '"' {
            out.push('\\');
            out.push('"');
        } else {
            out.push(c);
        }
        proof {
            let now = v@.take(k + 1);
            assert(now.drop_last() =~= v@.take(k as int));
            assert(now.last() == c);
            assert(out@ =~= escape_toml_spec(v@.take(k as int)) + escape_char(c));
        }
        k = k + 1;
    }
    assert(v@.take(v@.len() as int) =~= v@);
    out
}

/// `value` escaped for a basic TOML string.
pub fn escape_toml(value: &str) -> (r: String)
    ensures
        r@ == escape_toml_spec(value@),
{
    let v = chars_of(value);
    string_from_chars(&escape_vec(&v))
}

/// `"value"`, escaped.
pub open spec fn quoted(v: Seq<char>) -> Seq<char> {
    seq!['"'] + escape_toml_spec(v) + seq!['"']
}

/// The line `key = ["a", "b"]` for the values.
pub open spec fn array_line(key: Seq<char>, values: Seq<Seq<char>>) -> Seq<char> {
    key + " = ["@ + join(values.map_values(|v: Seq<char>| quoted(v)), ", "@) + seq![']']
}

pub open spec fn line_replaced(line: Seq<char>, key: Seq<char>, rep: Seq<char>) -> Seq<char> {
    if spec_starts_with(trim_start(line), key) {
        rep
    } else {
        line
    }
}

/// A newline where `b` ends with one.
pub open spec fn newline_if_ends(b: Seq<char>) -> Seq<char> {
    if b.len() > 0 && b.last() == '\n' {
        seq!['\n']
    } else {
        seq![]
    }
}

/// The block with every line that starts (after indentation) with `key` replaced by the
/// array line for the values; lines are rejoined with newlines.
pub open spec fn replace_array_field_spec(
    block: Seq<char>,
    key: Seq<char>,
    values: Seq<Seq<char>>,
) -> Seq<char> {
    join(
        spec_lines(block).map_values(|l: Seq<char>| line_replaced(l, key, array_line(key, values))),
        seq!['\n'],
    ) + newline_if_ends(block)
}

fn literal(s: &str) -> (r: Vec<char>)
    ensures
        r@ == s@,
{
    chars_of(s)
}

fn quoted_vec(v: &Vec<char>) -> (r: Vec<char>)
    ensures
        r@ == quoted(v@),
{
    let mut out = one_char('"');
    push_all(&mut out, &escape_vec(v));
    out.push('"');
    assert(out@ =~= quoted(v@));
    out
}

fn array_line_vec(key: &Vec<char>, values: &Vec<Vec<char>>) -> (r: Vec<char>)
    ensures
        r@ == array_line(key@, views(values@)),
{
    let mut items: Vec<Vec<char>> = Vec::new();
    let mut k: usize = 0;
    while k < values.len()
        invariant
            k <= values@.len(),
            items@.len() == k,
            forall|m: int| 0 <= m < k ==> #[trigger] items@[m]@ == quoted(values@[m]@),
        decreases values.len() - k,
    {
        items.push(quoted_vec(&values[k]));
        k = k + 1;
    }
    assert(views(items@) =~= views(values@).map_values(|v: Seq<char>| quoted(v)));
    let mut out = copy_vec(key);
    let sep = literal(" = [");
    push_all(&mut out, &sep);
    let comma = literal(", ");
    push_all(&mut out, &join_exec(&items, &comma));
    out.push(']');
    assert(out@ =~= array_line(key@, views(values@)));
    out
}

fn replace_array_field_vec(block: &Vec<char>, key: &Vec<char>, values: &Vec<Vec<char>>) -> (r:
    Vec<char>)
    ensures
        r@ == replace_array_field_spec(block@, key@, views(values@)),
{
    let rep = array_line_vec(key, values);
    let ghost repv = array_line(key@, views(values@));
    let lines = lines_exec(block);
    let ghost ls = views(lines@);
    let mut mapped: Vec<Vec<char>> = Vec::new();
    let mut k: usize = 0;
    while k < lines.len()
        invariant
            ls == views(lines@),
            rep@ == repv,
            k <= lines@.len(),
            mapped@.len() == k,
            forall|m: int| 0 <= m < k ==> #[trigger] mapped@[m]@ == line_replaced(ls[m], key@, repv),
        decreases lines.len() - k,
    {
        let t = trim_start_vec(&lines[k]);
        if occurs_at_exec(&t, key, 0) {
            mapped.push(copy_vec(&rep));
        } else {
            mapped.push(copy_vec(&lines[k]));
        }
        k = k + 1;
    }
    assert(views(mapped@) =~= spec_lines(block@).map_values(
        |l: Seq<char>| line_replaced(l, key@, repv),
    ));
    let nl = one_char('\n');
    let mut out = join_exec(&mapped, &nl);
    if block.len() > 0 && block[block.len() - 1] == '\n' {
        out.push('\n');
    }
    assert(out@ =~= replace_array_field_spec(block@, key@, views(values@)));
    out
}

fn vecs_of(v: &[String]) -> (r: Vec<Vec<char>>)
    ensures
        views(r@) == string_views(v@),
{
    let mut r: Vec<Vec<char>> = Vec::new();
    let mut k: usize = 0;
    while k < v.len()
        invariant
            k <= v@.len(),
            r@.len() == k,
            forall|m: int| 0 <= m < k ==> #[trigger] r@[m]@ == v@[m]@,
        decreases v.len() - k,
    {
        r.push(chars_of(v[k].as_str()));
        k = k + 1;
    }
    assert(views(r@) =~= string_views(v@));
    r
}

/// `block` with each `key` line replaced by `key = [...]` for the values.
pub fn replace_array_field(block: &str, key: &str, values: &[String]) -> (r: String)
    ensures
        r@ == replace_array_field_spec(block@, key@, string_views(values@)),
{
    let b = chars_of(block);
    let k = chars_of(key);
    let vs = vecs_of(values);
    string_from_chars(&replace_array_field_vec(&b, &k, &vs))
}

/// Whether some connection from `from` carries the condition `c`.
pub open spec fn has_condition(conns: Seq<ConnectionFields>, from: Seq<char>, c: Seq<char>) -> bool {
    exists|k: int| 0 <= k < conns.len() && (#[trigger] conns[k]).0 == from && conns[k].2 == Some(c)
}

/// The condition a new branch from `from` gets: `false` once a `true` branch exists without a
/// `false` one, otherwise `true`.
pub open spec fn next_branch_condition_spec(content: Seq<char>, from: Seq<char>) -> Seq<char> {
    let conns = connections_spec(content);
    if has_condition(conns, from, "true"@) && !has_condition(conns, from, "false"@) {
        "false"@
    } else {
        "true"@
    }
}

pub fn next_branch_condition(content: &str, from_id: &str) -> (r: String)
    ensures
        r@ == next_branch_condition_spec(content@, from_id@),
{
    let conns = parse_workflow_connections(content);
    let ghost cs = conns@.map_values(|c: WorkflowConnectionView| c@);
    let mut has_true = false;
    let mut has_false = false;
    let mut k: usize = 0;
    while k < conns.len()
        invariant
            cs == conns@.map_values(|c: WorkflowConnectionView| c@),
            k <= conns@.len(),
            has_true == has_condition(cs.take(k as int), from_id@, "true"@),
            has_false == has_condition(cs.take(k as int), from_id@, "false"@),
        decreases conns.len() - k,
    {
        let conn = &conns[k];
        let ghost before = cs.take(k as int);
        let ghost now = cs.take(k + 1);
        assert(now[k as int] == conn@);
        if eq_str(conn.from_id.as_str(), from_id) {
            match &conn.condition {
                Some(c) => {
                    if eq_str(c.as_str(), "true") {
                        has_true = true;
                    }
                    if eq_str(c.as_str(), "false") {
                        has_false = true;
                    }
                },
                None => {},
            }
        }
        proof {
            assert forall|w: Seq<char>| has_condition(now, from_id@, w) == (has_condition(
                before,
                from_id@,
                w,
            ) || (conn@.0 == from_id@ && conn@.2 == Some(w))) by {
                if has_condition(now, from_id@, w) {
                    let j = choose|j: int|
                        0 <= j < now.len() && (#[trigger] now[j]).0 == from_id@ && now[j].2 == Some(
                            w,
                        );
                    if j < k {
                        assert(before[j] == now[j]);
                    }
                }
                if has_condition(before, from_id@, w) {
                    let j = choose|j: int|
                        0 <= j < before.len() && (#[trigger] before[j]).0 == from_id@ && before[j].2
                            == Some(w);
                    assert(now[j] == before[j]);
                }
            }
        }
        k = k + 1;
    }
    assert(cs.take(conns@.len() as int) =~= cs);
    if has_true && !has_false {
        owned("false")
    } else {
        owned("true")
    }
}

/// The text of a new workflow file with a single agent.
pub fn default_workflow_content() -> (r: String)
    ensures
        r@ == "[orchestration]\nmax_parallel_agents = 8\napproval_mode = \"auto\"\n\n[[orchestration.nodes]]\nid = \"work-agent\"\noutput_contract = \"implementation\"\ninstruction = \"work.md\"\n\n"@,
{
    owned(
        "[orchestration]\nmax_parallel_agents = 8\napproval_mode = \"auto\"\n\n[[orchestration.nodes]]\nid = \"work-agent\"\noutput_contract = \"implementation\"\ninstruction = \"work.md\"\n\n",
    )
}

/// The `i`-th candidate name for a new node: the prefix, a hyphen and the number.
pub open spec fn candidate_id(prefix: Seq<char>, i: nat) -> Seq<char> {
    prefix + seq!['-'] + decimal_spec(i)
}

pub open spec fn node_ids(nodes: Seq<WorkflowNodeView>) -> Seq<Seq<char>> {
    nodes.map_values(|n: WorkflowNodeView| n.id@)
}

/// The name a new node gets: the first candidate, counting from one past the number of nodes,
/// that no node has.
pub open spec fn is_first_free_id(ids: Seq<Seq<char>>, prefix: Seq<char>, id: Seq<char>) -> bool {
    exists|i: nat|
        #![trigger candidate_id(prefix, i)]
        i >= ids.len() + 1 && id == candidate_id(prefix, i) && !ids.contains(id) && forall|j: nat|
            ids.len() + 1 <= j < i ==> ids.contains(#[trigger] candidate_id(prefix, j))
}

proof fn lemma_decimal_len(n: nat)
    ensures
        decimal_spec(n).len() >= 1,
        n >= 10 ==> decimal_spec(n).len() >= 2,
    decreases n,
{
    if n >= 10 {
        lemma_decimal_len(n / 10);
    }
}

proof fn lemma_digit_char_injective(a: nat, b: nat)
    requires
        a < 10,
        b < 10,
        digit_char(a) == digit_char(b),
    ensures
        a == b,
{
}

proof fn lemma_decimal_injective(a: nat, b: nat)
    requires
        decimal_spec(a) == decimal_spec(b),
    ensures
        a == b,
    decreases a,
{
    lemma_decimal_len(a);
    lemma_decimal_len(b);
    if a < 10 && b < 10 {
        assert(decimal_spec(a)[0] == digit_char(a));
        assert(decimal_spec(b)[0] == digit_char(b));
        lemma_digit_char_injective(a, b);
    } else if a >= 10 && b >= 10 {
        let da = decimal_spec(a);
        let db = decimal_spec(b);
        assert(da.last() == digit_char(a % 10));
        assert(db.last() == digit_char(b % 10));
        lemma_digit_char_injective(a % 10, b % 10);
        assert(da.drop_last() =~= decimal_spec(a / 10));
        assert(db.drop_last() =~= decimal_spec(b / 10));
        lemma_decimal_injective(a / 10, b / 10);
    } else {
        assert(decimal_spec(a).len() != decimal_spec(b).len());
    }
}

proof fn lemma_candidate_injective(prefix: Seq<char>, a: nat, b: nat)
    requires
        candidate_id(prefix, a) == candidate_id(prefix, b),
    ensures
        a == b,
{
    let n = prefix.len() + 1;
    let ca = candidate_id(prefix, a);
    let cb = candidate_id(prefix, b);
    assert(ca.subrange(n as int, ca.len() as int) =~= decimal_spec(a));
    assert(cb.subrange(n as int, cb.len() as int) =~= decimal_spec(b));
    lemma_decimal_injective(a, b);
}

/// Distinct candidates all taken by the nodes are no more than the nodes.
proof fn lemma_taken_candidates_bound(ids: Seq<Seq<char>>, prefix: Seq<char>, lo: nat, hi: nat)
    requires
        lo <= hi,
        forall|j: nat| lo <= j < hi ==> ids.contains(#[trigger] candidate_id(prefix, j)),
    ensures
        hi - lo <= ids.len(),
{
    let f = |j: int| candidate_id(prefix, j as nat);
    let range = set_int_range(lo as int, hi as int);
    lemma_int_range(lo as int, hi as int);
    assert forall|x: int, y: int| range.contains(x) && range.contains(y) && #[trigger] f(x) == #[trigger] f(
        y,
    ) implies x == y by {
        lemma_candidate_injective(prefix, x as nat, y as nat);
    }
    assert(injective_on(f, range));
    let img = range.map(f);
    lemma_map_size(range, img, f);
    assert forall|c: Seq<char>| img.contains(c) implies ids.to_set().contains(c) by {
        let x = choose|x: int| range.contains(x) && c == f(x);
        assert(ids.contains(candidate_id(prefix, x as nat)));
    }
    vstd::seq_lib::seq_to_set_is_finite(ids);
    lemma_len_subset(img, ids.to_set());
    ids.lemma_cardinality_of_set();
}

fn id_taken_exec(nodes: &[WorkflowNodeView], id: &String) -> (r: bool)
    ensures
        r == node_ids(nodes@).contains(id@),
{
    let mut k: usize = 0;
    while k < nodes.len()
        invariant
            k <= nodes@.len(),
            forall|m: int| 0 <= m < k ==> nodes@[m].id@ != id@,
        decreases nodes.len() - k,
    {
        if eq_str(nodes[k].id.as_str(), id.as_str()) {
            assert(node_ids(nodes@)[k as int] == id@);
            return true;
        }
        k = k + 1;
    }
    proof {
        if node_ids(nodes@).contains(id@) {
            let m = choose|m: int| 0 <= m < node_ids(nodes@).len() && node_ids(nodes@)[m] == id@;
            assert(nodes@[m].id@ == id@);
        }
    }
    false
}

/// A name of the form `prefix-N` that no node has, with `N` counted up from one past the
/// number of nodes.
pub fn unique_prefixed_workflow_node_id(nodes: &[WorkflowNodeView], prefix: &str) -> (r: String)
    requires
        nodes@.len() < usize::MAX / 2,
    ensures
        is_first_free_id(node_ids(nodes@), prefix@, r@),
{
    let n = nodes.len();
    let mut index: usize = n + 1;
    let ghost ids = node_ids(nodes@);
    loop
        invariant
            n == nodes@.len(),
            n < usize::MAX / 2,
            ids == node_ids(nodes@),
            n + 1 <= index <= 2 * n + 1,
            forall|j: nat| n + 1 <= j < index ==> ids.contains(#[trigger] candidate_id(prefix@, j)),
        decreases 2 * n + 1 - index,
    {
        let mut id = owned(prefix);
        id.append("-");
        let digits = decimal(index as u64);
        id.append(digits.as_str());
        proof {
            reveal_strlit("-");
            assert(id@ =~= candidate_id(prefix@, index as nat));
        }
        if !id_taken_exec(nodes, &id) {
            assert(is_first_free_id(ids, prefix@, id@));
            return id;
        }
        proof {
            lemma_taken_candidates_bound(ids, prefix@, (n + 1) as nat, (index + 1) as nat);
            assert(ids.len() == n);
        }
        index = index + 1;
    }
}

/// A fresh `agent-N` name.
pub fn unique_workflow_node_id(nodes: &[WorkflowNodeView]) -> (r: String)
    requires
        nodes@.len() < usize::MAX / 2,
    ensures
        is_first_free_id(node_ids(nodes@), "agent"@, r@),
{
    unique_prefixed_workflow_node_id(nodes, "agent")
}

/// The trimmed text, where any is left.
pub open spec fn trimmed_or_none(value: Seq<char>) -> Option<Seq<char>> {
    if spec_trim(value).len() == 0 {
        None
    } else {
        Some(spec_trim(value))
    }
}

/// The trimmed text, where any is left.
pub fn optional_path(value: &str) -> (r: Option<String>)
    ensures
        opt_view(r) == trimmed_or_none(value@),
{
    let t = trim(value);
    if is_empty_str(t.as_str()) {
        None
    } else {
        Some(t)
    }
}

pub open spec fn is_digit(c: char) -> bool {
    '0' <= c && c <= '9'
}

/// The number that a string of decimal digits writes.
pub open spec fn digits_value(s: Seq<char>) -> nat
    decreases s.len(),
{
    if s.len() == 0 {
        0
    } else {
        digits_value(s.drop_last()) * 10 + (s.last() as nat - '0' as nat) as nat
    }
}

/// The digits after an optional leading `+`.
pub open spec fn unsigned_digits(s: Seq<char>) -> Seq<char> {
    if s.len() > 0 && s[0] == '+' {
        s.drop_first()
    } else {
        s
    }
}

/// The `usize` that `str::parse` reads from `s`, if it reads one: an optional `+`, then at least
/// one decimal digit and nothing else, for a value that fits.
pub open spec fn parsed_usize(s: Seq<char>) -> Option<nat> {
    let d = unsigned_digits(s);
    if d.len() > 0 && (forall|i: int| 0 <= i < d.len() ==> is_digit(#[trigger] d[i]))
        && digits_value(d) <= usize::MAX {
        Some(digits_value(d))
    } else {
        None
    }
}

proof fn lemma_digits_value_grows(s: Seq<char>, k: int)
    requires
        0 <= k <= s.len(),
        forall|i: int| 0 <= i < s.len() ==> is_digit(#[trigger] s[i]),
    ensures
        digits_value(s.take(k)) <= digits_value(s),
    decreases s.len() - k,
{
    if k < s.len() {
        lemma_digits_value_grows(s, k + 1);
        assert(s.take(k + 1).drop_last() =~= s.take(k));
    } else {
        assert(s.take(k) =~= s);
    }
}

fn parse_usize(s: &Vec<char>) -> (r: Option<usize>)
    ensures
        match r {
            Some(n) => parsed_usize(s@) == Some(n as nat),
            None => parsed_usize(s@) is None,
        },
{
    let start: usize = if s.len() > 0 && s[0] == '+' {
        1
    } else {
        0
    };
    let d = sub_vec(s, start, s.len());
    assert(d@ =~= unsigned_digits(s@));
    if d.len() == 0 {
        return None;
    }
    let mut value: usize = 0;
    let mut k: usize = 0;
    assert(d@.take(0) =~= seq![]);
    while k < d.len()
        invariant
            d@ == unsigned_digits(s@),
            k <= d@.len(),
            forall|i: int| 0 <= i < k ==> is_digit(#[trigger] d@[i]),
            value as nat == digits_value(d@.take(k as int)),
        decreases d.len() - k,
    {
        let c = d[k];
        if !('0' <= c && c <= '9') {
            assert(!is_digit(d@[k as int]));
            return None;
        }
        let digit: usize = ((c as u32) - ('0' as u32)) as usize;
        proof {
            let now = d@.take(k + 1);
            assert(now.drop_last() =~= d@.take(k as int));
            assert(now.last() == c);
        }
        let next = match value.checked_mul(10) {
            Some(t) => t.checked_add(digit),
            None => None,
        };
        match next {
            Some(v) => {
                value = v;
            },
            None => {
                proof {
                    assert(digits_value(d@.take(k + 1)) > usize::MAX);
                    if forall|i: int| 0 <= i < d@.len() ==> is_digit(#[trigger] d@[i]) {
                        lemma_digits_value_grows(d@, k + 1);
                    }
                }
                return None;
            },
        }
        k = k + 1;
    }
    assert(d@.take(d@.len() as int) =~= d@);
    Some(value)
}

/// An empty (or blank) field reads as no value; otherwise the trimmed text must be a `usize`.
pub fn parse_optional_usize(value: &str) -> (r: Result<Option<usize>, String>)
    ensures
        spec_trim(value@).len() == 0 ==> r == Ok::<Option<usize>, String>(None),
        spec_trim(value@).len() > 0 ==> match parsed_usize(spec_trim(value@)) {
            Some(n) => r matches Ok(Some(m)) && m as nat == n,
            None => r matches Err(e) && e@ == "Max parallel agents must be a positive integer."@,
        },
{
    let t = trim(value);
    if is_empty_str(t.as_str()) {
        return Ok(None);
    }
    let v = chars_of(t.as_str());
    match parse_usize(&v) {
        Some(n) => Ok(Some(n)),
        None => Err(owned("Max parallel agents must be a positive integer.")),
    }
}

/// The blocks after the first that a node block with the given id is left out of.
pub open spec fn kept_node_blocks(blocks: Seq<Seq<char>>, id: Seq<char>) -> Seq<char>
    decreases blocks.len(),
{
    if blocks.len() == 0 {
        seq![]
    } else {
        let b = blocks.last();
        kept_node_blocks(blocks.drop_last(), id) + if string_field_spec(b, "id"@) == Some(id) {
            seq![]
        } else {
            nodes_header() + b
        }
    }
}

/// The file without the node blocks whose id is `id`.
pub open spec fn remove_workflow_node_spec(content: Seq<char>, id: Seq<char>) -> Seq<char> {
    let ps = spec_split(content, nodes_header());
    ps[0] + kept_node_blocks(ps.drop_first(), id)
}

fn header_vec(nodes: bool) -> (r: Vec<char>)
    ensures
        r@ == if nodes {
            nodes_header()
        } else {
            connections_header()
        },
        r@.len() > 0,
{
    if nodes {
        proof {
            reveal_strlit("[[orchestration.nodes]]");
        }
        literal("[[orchestration.nodes]]")
    } else {
        proof {
            reveal_strlit("[[orchestration.connections]]");
        }
        literal("[[orchestration.connections]]")
    }
}

/// Removes the blocks of the node named `id`.
pub fn remove_workflow_node(content: &str, id: &str) -> (r: String)
    ensures
        r@ == remove_workflow_node_spec(content@, id@),
{
    let c = chars_of(content);
    let idv = chars_of(id);
    let idk = literal("id");
    let header = header_vec(true);
    let blocks = split_exec(&c, &header);
    let ghost ps = views(blocks@);
    assert(ps.len() >= 1);
    let mut out = copy_vec(&blocks[0]);
    let mut k: usize = 1;
    assert(ps.drop_first().take(0) =~= seq![]);
    assert(out@ =~= ps[0] + kept_node_blocks(ps.drop_first().take(0), id@));
    while k < blocks.len()
        invariant
            ps == views(blocks@),
            ps == spec_split(content@, nodes_header()),
            header@ == nodes_header(),
            idk@ == "id"@,
            idv@ == id@,
            ps.len() >= 1,
            1 <= k <= blocks@.len(),
            out@ == ps[0] + kept_node_blocks(ps.drop_first().take(k - 1), id@),
        decreases blocks.len() - k,
    {
        let b = &blocks[k];
        let ghost before = out@;
        let keep = match string_field_vec(b, &idk) {
            Some(x) => !eq_vec(&x, &idv),
            None => true,
        };
        if keep {
            push_all(&mut out, &header);
            push_all(&mut out, b);
        }
        proof {
            let now = ps.drop_first().take(k as int);
            assert(now.drop_last() =~= ps.drop_first().take(k - 1));
            assert(now.last() == b@);
            assert(out@ =~= ps[0] + kept_node_blocks(now, id@));
        }
        k = k + 1;
    }
    assert(ps.drop_first().take(blocks@.len() - 1) =~= ps.drop_first());
    string_from_chars(&out)
}

fn eq_vec(a: &Vec<char>, b: &Vec<char>) -> (r: bool)
    ensures
        r == (a@ == b@),
{
    eq_str(string_from_chars(a).as_str(), string_from_chars(b).as_str())
}

/// The lines that do not start (after indentation) with `word`.
pub open spec fn lines_without(lines: Seq<Seq<char>>, word: Seq<char>) -> Seq<Seq<char>>
    decreases lines.len(),
{
    if lines.len() == 0 {
        seq![]
    } else {
        let rest = lines_without(lines.drop_last(), word);
        if spec_starts_with(trim_start(lines.last()), word) {
            rest
        } else {
            rest.push(lines.last())
        }
    }
}

/// A node block with its `word` lines dropped and the extra lines added at its end.
pub open spec fn with_line_set(b: Seq<char>, word: Seq<char>, extra: Seq<Seq<char>>) -> Seq<char> {
    join(lines_without(spec_lines(b), word) + extra, seq!['\n']) + newline_if_ends(b)
}

pub open spec fn set_line_block(
    b: Seq<char>,
    node_id: Seq<char>,
    word: Seq<char>,
    extra: Seq<Seq<char>>,
) -> Seq<char> {
    if string_field_spec(b, "id"@) == Some(node_id) {
        with_line_set(b, word, extra)
    } else {
        b
    }
}

pub open spec fn set_line_blocks(
    blocks: Seq<Seq<char>>,
    node_id: Seq<char>,
    word: Seq<char>,
    extra: Seq<Seq<char>>,
) -> Seq<char>
    decreases blocks.len(),
{
    if blocks.len() == 0 {
        seq![]
    } else {
        set_line_blocks(blocks.drop_last(), node_id, word, extra) + nodes_header()
            + set_line_block(blocks.last(), node_id, word, extra)
    }
}

/// The file with the `word` lines of the node `node_id` replaced by the extra lines.
pub open spec fn set_node_line_spec(
    content: Seq<char>,
    node_id: Seq<char>,
    word: Seq<char>,
    extra: Seq<Seq<char>>,
) -> Seq<char> {
    let ps = spec_split(content, nodes_header());
    ps[0] + set_line_blocks(ps.drop_first(), node_id, word, extra)
}

fn with_line_set_vec(b: &Vec<char>, word: &Vec<char>, extra: &Vec<Vec<char>>) -> (r: Vec<char>)
    ensures
        r@ == with_line_set(b@, word@, views(extra@)),
{
    let lines = lines_exec(b);
    let ghost ls = views(lines@);
    let mut kept: Vec<Vec<char>> = Vec::new();
    let mut k: usize = 0;
    assert(ls.take(0) =~= seq![]);
    assert(views(kept@) =~= seq![]);
    while k < lines.len()
        invariant
            ls == views(lines@),
            k <= lines@.len(),
            views(kept@) == lines_without(ls.take(k as int), word@),
        decreases lines.len() - k,
    {
        let t = trim_start_vec(&lines[k]);
        proof {
            let now = ls.take(k + 1);
            assert(now.drop_last() =~= ls.take(k as int));
            assert(now.last() == lines@[k as int]@);
        }
        if !occurs_at_exec(&t, word, 0) {
            let l = copy_vec(&lines[k]);
            proof {
                lemma_views_push(kept@, l);
            }
            kept.push(l);
        }
        k = k + 1;
    }
    assert(ls.take(lines@.len() as int) =~= ls);
    let ghost kept_before = views(kept@);
    let mut m: usize = 0;
    while m < extra.len()
        invariant
            m <= extra@.len(),
            views(kept@) == kept_before + views(extra@).take(m as int),
        decreases extra.len() - m,
    {
        let l = copy_vec(&extra[m]);
        proof {
            lemma_views_push(kept@, l);
            assert(kept_before + views(extra@).take(m + 1) =~= (kept_before + views(extra@).take(
                m as int,
            )).push(l@));
        }
        kept.push(l);
        m = m + 1;
    }
    assert(views(extra@).take(extra@.len() as int) =~= views(extra@));
    let nl = one_char('\n');
    let mut out = join_exec(&kept, &nl);
    if b.len() > 0 && b[b.len() - 1] == '\n' {
        out.push('\n');
    }
    assert(out@ =~= with_line_set(b@, word@, views(extra@)));
    out
}

fn set_node_line_vec(
    content: &Vec<char>,
    node_id: &Vec<char>,
    word: &Vec<char>,
    extra: &Vec<Vec<char>>,
) -> (r: Vec<char>)
    ensures
        r@ == set_node_line_spec(content@, node_id@, word@, views(extra@)),
{
    let header = header_vec(true);
    let idk = literal("id");
    let blocks = split_exec(content, &header);
    let ghost ps = views(blocks@);
    let ghost ex = views(extra@);
    assert(ps.len() >= 1);
    let mut out = copy_vec(&blocks[0]);
    let mut k: usize = 1;
    assert(ps.drop_first().take(0) =~= seq![]);
    assert(out@ =~= ps[0] + set_line_blocks(ps.drop_first().take(0), node_id@, word@, ex));
    while k < blocks.len()
        invariant
            ps == views(blocks@),
            ps == spec_split(content@, nodes_header()),
            ex == views(extra@),
            header@ == nodes_header(),
            idk@ == "id"@,
            ps.len() >= 1,
            1 <= k <= blocks@.len(),
            out@ == ps[0] + set_line_blocks(ps.drop_first().take(k - 1), node_id@, word@, ex),
        decreases blocks.len() - k,
    {
        let b = &blocks[k];
        let matches = match string_field_vec(b, &idk) {
            Some(x) => eq_vec(&x, node_id),
            None => false,
        };
        push_all(&mut out, &header);
        if matches {
            push_all(&mut out, &with_line_set_vec(b, word, extra));
        } else {
            push_all(&mut out, b);
        }
        proof {
            let now = ps.drop_first().take(k as int);
            assert(now.drop_last() =~= ps.drop_first().take(k - 1));
            assert(now.last() == b@);
            assert(out@ =~= ps[0] + set_line_blocks(now, node_id@, word@, ex));
        }
        k = k + 1;
    }
    assert(ps.drop_first().take(blocks@.len() - 1) =~= ps.drop_first());
    out
}

/// `{ source = "name" }`, escaped.
pub open spec fn source_entry(s: Seq<char>) -> Seq<char> {
    "{ source = \""@ + escape_toml_spec(s) + "\" }"@
}

/// The line `inputs = [{ source = "a" }, ...]`.
pub open spec fn inputs_line(inputs: Seq<Seq<char>>) -> Seq<char> {
    "inputs = ["@ + join(inputs.map_values(|s: Seq<char>| source_entry(s)), ", "@) + seq![']']
}

/// No line for an empty list, else the one given.
pub open spec fn line_unless_empty(list: Seq<Seq<char>>, line: Seq<char>) -> Seq<Seq<char>> {
    if list.len() == 0 {
        seq![]
    } else {
        seq![line]
    }
}

pub open spec fn set_workflow_node_inputs_spec(
    content: Seq<char>,
    node_id: Seq<char>,
    inputs: Seq<Seq<char>>,
) -> Seq<char> {
    set_node_line_spec(content, node_id, "inputs"@, line_unless_empty(inputs, inputs_line(inputs)))
}

/// Double quotes escaped (backslashes left as they are).
pub open spec fn escape_quotes_spec(s: Seq<char>) -> Seq<char>
    decreases s.len(),
{
    if s.len() == 0 {
        seq![]
    } else {
        escape_quotes_spec(s.drop_last()) + if s.last() == '"' {
            seq!['\\', '"']
        } else {
            seq![s.last()]
        }
    }
}

/// The line `depends_on = ["a", ...]`.
pub open spec fn depends_on_line(deps: Seq<Seq<char>>) -> Seq<char> {
    "depends_on = ["@ + join(
        deps.map_values(|d: Seq<char>| seq!['"'] + escape_quotes_spec(d) + seq!['"']),
        ", "@,
    ) + seq![']']
}

pub open spec fn set_workflow_node_dependencies_spec(
    content: Seq<char>,
    node_id: Seq<char>,
    deps: Seq<Seq<char>>,
) -> Seq<char> {
    set_node_line_spec(content, node_id, "depends_on"@, line_unless_empty(deps, depends_on_line(deps)))
}

fn escape_quotes_vec(v: &Vec<char>) -> (r: Vec<char>)
    ensures
        r@ == escape_quotes_spec(v@),
{
    let mut out: Vec<char> = Vec::new();
    let mut k: usize = 0;
    assert(v@.take(0) =~= seq![]);
    while k < v.len()
        invariant
            k <= v@.len(),
            out@ == escape_quotes_spec(v@.take(k as int)),
        decreases v.len() - k,
    {
        let c = v[k];
        if c == '"' {
            out.push('\\');
            out.push('"');
        } else {
            out.push(c);
        }
        proof {
            let now = v@.take(k + 1);
            assert(now.drop_last() =~= v@.take(k as int));
            assert(now.last() == c);
        }
        assert(out@ =~= escape_quotes_spec(v@.take(k + 1)));
        k = k + 1;
    }
    assert(v@.take(v@.len() as int) =~= v@);
    out
}

/// Builds the list line: `word = [` then the entries joined by `, ` then `]`; entries are
/// `{ source = "..." }` for inputs and `"..."` for dependencies.
fn list_line_vec(values: &Vec<Vec<char>>, inputs: bool) -> (r: Vec<char>)
    ensures
        r@ == if inputs {
            inputs_line(views(values@))
        } else {
            depends_on_line(views(values@))
        },
{
    let mut items: Vec<Vec<char>> = Vec::new();
    let mut k: usize = 0;
    while k < values.len()
        invariant
            k <= values@.len(),
            items@.len() == k,
            forall|m: int|
                0 <= m < k ==> #[trigger] items@[m]@ == if inputs {
                    source_entry(values@[m]@)
                } else {
                    seq!['"'] + escape_quotes_spec(values@[m]@) + seq!['"']
                },
        decreases values.len() - k,
    {
        if inputs {
            let mut e = literal("{ source = \"");
            push_all(&mut e, &escape_vec(&values[k]));
            push_all(&mut e, &literal("\" }"));
            items.push(e);
        } else {
            let mut e = one_char('"');
            push_all(&mut e, &escape_quotes_vec(&values[k]));
            e.push('"');
            items.push(e);
        }
        k = k + 1;
    }
    let mut out = if inputs {
        literal("inputs = [")
    } else {
        literal("depends_on = [")
    };
    push_all(&mut out, &join_exec(&items, &literal(", ")));
    out.push(']');
    if inputs {
        assert(views(items@) =~= views(values@).map_values(|s: Seq<char>| source_entry(s)));
        assert(out@ =~= inputs_line(views(values@)));
    } else {
        assert(views(items@) =~= views(values@).map_values(
            |d: Seq<char>| seq!['"'] + escape_quotes_spec(d) + seq!['"'],
        ));
        assert(out@ =~= depends_on_line(views(values@)));
    }
    out
}

fn set_list_vec(content: &Vec<char>, node_id: &Vec<char>, values: &Vec<Vec<char>>, inputs: bool) -> (r:
    Vec<char>)
    ensures
        r@ == if inputs {
            set_workflow_node_inputs_spec(content@, node_id@, views(values@))
        } else {
            set_workflow_node_dependencies_spec(content@, node_id@, views(values@))
        },
{
    let mut extra: Vec<Vec<char>> = Vec::new();
    if values.len() > 0 {
        extra.push(list_line_vec(values, inputs));
    }
    let ghost line = if inputs {
        inputs_line(views(values@))
    } else {
        depends_on_line(views(values@))
    };
    assert(views(extra@) =~= line_unless_empty(views(values@), line));
    let word = if inputs {
        literal("inputs")
    } else {
        literal("depends_on")
    };
    set_node_line_vec(content, node_id, &word, &extra)
}

/// Replaces the `inputs` line of the node `node_id` by one listing the sources (none if empty).
pub fn set_workflow_node_inputs(content: &str, node_id: &str, inputs: &[String]) -> (r: String)
    ensures
        r@ == set_workflow_node_inputs_spec(content@, node_id@, string_views(inputs@)),
{
    let c = chars_of(content);
    let id = chars_of(node_id);
    let vs = vecs_of(inputs);
    string_from_chars(&set_list_vec(&c, &id, &vs, true))
}

/// Replaces the `depends_on` line of the node `node_id` by one listing the dependencies (none
/// if empty).
pub fn set_workflow_node_dependencies(content: &str, node_id: &str, dependencies: &[String]) -> (r:
    String)
    ensures
        r@ == set_workflow_node_dependencies_spec(content@, node_id@, string_views(dependencies@)),
{
    let c = chars_of(content);
    let id = chars_of(node_id);
    let vs = vecs_of(dependencies);
    string_from_chars(&set_list_vec(&c, &id, &vs, false))
}

pub open spec fn opt_str_view(o: Option<&str>) -> Option<Seq<char>> {
    match o {
        Some(s) => Some(s@),
        None => None,
    }
}

/// Whether a connection block starts at `from` under the condition `cond`.
pub open spec fn connection_matches(b: Seq<char>, from: Seq<char>, cond: Option<Seq<char>>) -> bool {
    string_field_spec(b, "from"@) == Some(from) && string_field_spec(b, "condition"@) == cond
}

/// The targets with `t` added at the end, unless it is there already.
pub open spec fn with_target(ts: Seq<Seq<char>>, t: Seq<char>) -> Seq<Seq<char>> {
    if ts.contains(t) {
        ts
    } else {
        ts.push(t)
    }
}

/// The items other than `t`, in order.
pub open spec fn without(ts: Seq<Seq<char>>, t: Seq<char>) -> Seq<Seq<char>>
    decreases ts.len(),
{
    if ts.len() == 0 {
        seq![]
    } else {
        let rest = without(ts.drop_last(), t);
        if ts.last() == t {
            rest
        } else {
            rest.push(ts.last())
        }
    }
}

pub open spec fn added_connection_blocks(
    blocks: Seq<Seq<char>>,
    from: Seq<char>,
    to: Seq<char>,
    cond: Option<Seq<char>>,
) -> Seq<char>
    decreases blocks.len(),
{
    if blocks.len() == 0 {
        seq![]
    } else {
        let b = blocks.last();
        added_connection_blocks(blocks.drop_last(), from, to, cond) + connections_header() + if connection_matches(b, from, cond) {
            replace_array_field_spec(b, "to"@, with_target(array_field_spec(b, "to"@), to))
        } else {
            b
        }
    }
}

/// A newline where `s` does not already end with one.
pub open spec fn newline_unless_ends(s: Seq<char>) -> Seq<char> {
    if s.len() > 0 && s.last() == '\n' {
        seq![]
    } else {
        seq!['\n']
    }
}

/// A new connection block for the edge.
pub open spec fn new_connection_block(from: Seq<char>, to: Seq<char>, cond: Option<Seq<char>>) -> Seq<char> {
    "\n[[orchestration.connections]]\n"@ + "from = \""@ + escape_toml_spec(from) + "\"\n"@ + match cond {
        Some(c) => "condition = \""@ + escape_toml_spec(c) + "\"\n"@,
        None => seq![],
    } + "to = [\""@ + escape_toml_spec(to) + "\"]\n"@
}

/// The file with `to` added to every connection block from `from` under `cond`; where there is
/// none, a new block is appended.
pub open spec fn add_workflow_connection_spec(
    content: Seq<char>,
    from: Seq<char>,
    to: Seq<char>,
    cond: Option<Seq<char>>,
) -> Seq<char> {
    let ps = spec_split(content, connections_header());
    let out = ps[0] + added_connection_blocks(ps.drop_first(), from, to, cond);
    if exists|k: int| 1 <= k < ps.len() && connection_matches(#[trigger] ps[k], from, cond) {
        out
    } else {
        out + newline_unless_ends(out) + new_connection_block(from, to, cond)
    }
}

fn condition_matches_exec(b: &Vec<char>, from: &Vec<char>, cond: &Option<Vec<char>>) -> (r: bool)
    ensures
        r == connection_matches(
            b@,
            from@,
            match cond {
                Some(c) => Some(c@),
                None => None,
            },
        ),
{
    let from_ok = match string_field_vec(b, &literal("from")) {
        Some(x) => eq_vec(&x, from),
        None => false,
    };
    if !from_ok {
        return false;
    }
    match (string_field_vec(b, &literal("condition")), cond) {
        (Some(x), Some(c)) => eq_vec(&x, c),
        (None, None) => true,
        _ => false,
    }
}

fn with_target_vec(ts: Vec<Vec<char>>, t: &Vec<char>) -> (r: Vec<Vec<char>>)
    ensures
        views(r@) == with_target(views(ts@), t@),
{
    let mut k: usize = 0;
    while k < ts.len()
        invariant
            k <= ts@.len(),
            forall|m: int| 0 <= m < k ==> ts@[m]@ != t@,
        decreases ts.len() - k,
    {
        if eq_vec(&ts[k], t) {
            assert(views(ts@)[k as int] == t@);
            return ts;
        }
        k = k + 1;
    }
    proof {
        if views(ts@).contains(t@) {
            let m = choose|m: int| 0 <= m < views(ts@).len() && views(ts@)[m] == t@;
            assert(ts@[m]@ == t@);
        }
    }
    let mut r = ts;
    let tc = copy_vec(t);
    proof {
        lemma_views_push(r@, tc);
    }
    r.push(tc);
    r
}

fn without_vec(ts: &Vec<Vec<char>>, t: &Vec<char>) -> (r: Vec<Vec<char>>)
    ensures
        views(r@) == without(views(ts@), t@),
{
    let ghost tv = views(ts@);
    let mut r: Vec<Vec<char>> = Vec::new();
    let mut k: usize = 0;
    assert(tv.take(0) =~= seq![]);
    assert(views(r@) =~= seq![]);
    while k < ts.len()
        invariant
            tv == views(ts@),
            k <= ts@.len(),
            views(r@) == without(tv.take(k as int), t@),
        decreases ts.len() - k,
    {
        proof {
            let now = tv.take(k + 1);
            assert(now.drop_last() =~= tv.take(k as int));
            assert(now.last() == ts@[k as int]@);
        }
        if !eq_vec(&ts[k], t) {
            let x = copy_vec(&ts[k]);
            proof {
                lemma_views_push(r@, x);
            }
            r.push(x);
        }
        k = k + 1;
    }
    assert(tv.take(ts@.len() as int) =~= tv);
    r
}

fn opt_vec(o: Option<&str>) -> (r: Option<Vec<char>>)
    ensures
        match r {
            Some(c) => opt_str_view(o) == Some(c@),
            None => opt_str_view(o) is None,
        },
{
    match o {
        Some(s) => Some(chars_of(s)),
        None => None,
    }
}

fn added_connection_vec(c: &Vec<char>, from: &Vec<char>, to: &Vec<char>, cond: &Option<Vec<char>>) -> (r: (
    Vec<char>,
    bool,
))
    ensures
        ({
            let ps = spec_split(c@, connections_header());
            let cv = match cond {
                Some(x) => Some(x@),
                None => None,
            };
            &&& r.0@ == ps[0] + added_connection_blocks(ps.drop_first(), from@, to@, cv)
            &&& r.1 == exists|k: int| 1 <= k < ps.len() && connection_matches(#[trigger] ps[k], from@, cv)
        }),
{
    let ghost cv = match cond {
        Some(x) => Some(x@),
        None => None,
    };
    let header = header_vec(false);
    let to_key = literal("to");
    let blocks = split_exec(c, &header);
    let ghost ps = views(blocks@);
    assert(ps.len() >= 1);
    let mut out = copy_vec(&blocks[0]);
    let mut inserted = false;
    let mut k: usize = 1;
    assert(ps.drop_first().take(0) =~= seq![]);
    assert(out@ =~= ps[0] + added_connection_blocks(ps.drop_first().take(0), from@, to@, cv));
    while k < blocks.len()
        invariant
            ps == views(blocks@),
            ps == spec_split(c@, connections_header()),
            header@ == connections_header(),
            to_key@ == "to"@,
            cv == match cond {
                Some(x) => Some(x@),
                None => None,
            },
            ps.len() >= 1,
            1 <= k <= blocks@.len(),
            out@ == ps[0] + added_connection_blocks(ps.drop_first().take(k - 1), from@, to@, cv),
            inserted == exists|j: int| 1 <= j < k && connection_matches(#[trigger] ps[j], from@, cv),
        decreases blocks.len() - k,
    {
        let b = &blocks[k];
        push_all(&mut out, &header);
        let hit = condition_matches_exec(b, from, cond);
        if hit {
            let targets = array_field_vec(b, &to_key);
            let targets = with_target_vec(targets, to);
            push_all(&mut out, &replace_array_field_vec(b, &to_key, &targets));
            inserted = true;
        } else {
            push_all(&mut out, b);
        }
        proof {
            let now = ps.drop_first().take(k as int);
            assert(now.drop_last() =~= ps.drop_first().take(k - 1));
            assert(now.last() == b@);
            assert(ps[k as int] == b@);
            assert(out@ =~= ps[0] + added_connection_blocks(now, from@, to@, cv));
        }
        k = k + 1;
    }
    assert(ps.drop_first().take(blocks@.len() - 1) =~= ps.drop_first());
    (out, inserted)
}

fn new_connection_vec(from: &Vec<char>, to: &Vec<char>, cond: &Option<Vec<char>>) -> (r: Vec<char>)
    ensures
        r@ == new_connection_block(
            from@,
            to@,
            match cond {
                Some(x) => Some(x@),
                None => None,
            },
        ),
{
    let mut out = literal("\n[[orchestration.connections]]\n");
    push_all(&mut out, &literal("from = \""));
    push_all(&mut out, &escape_vec(from));
    push_all(&mut out, &literal("\"\n"));
    let ghost mid = out@;
    match cond {
        Some(cc) => {
            push_all(&mut out, &literal("condition = \""));
            push_all(&mut out, &escape_vec(cc));
            push_all(&mut out, &literal("\"\n"));
        },
        None => {},
    }
    push_all(&mut out, &literal("to = [\""));
    push_all(&mut out, &escape_vec(to));
    push_all(&mut out, &literal("\"]\n"));
    assert(out@ =~= new_connection_block(
        from@,
        to@,
        match cond {
            Some(x) => Some(x@),
            None => None,
        },
    ));
    out
}

/// Adds the edge `from -> to` under `condition` to the connection blocks of the file.
pub fn add_workflow_connection(content: &str, from_id: &str, to_id: &str, condition: Option<&str>) -> (r:
    String)
    ensures
        r@ == add_workflow_connection_spec(content@, from_id@, to_id@, opt_str_view(condition)),
{
    let c = chars_of(content);
    let from = chars_of(from_id);
    let to = chars_of(to_id);
    let cond = opt_vec(condition);
    let (mut out, inserted) = added_connection_vec(&c, &from, &to, &cond);
    if !inserted {
        let ghost before = out@;
        if !(out.len() > 0 && out[out.len() - 1] == '\n') {
            out.push('\n');
        }
        assert(out@ =~= before + newline_unless_ends(before));
        push_all(&mut out, &new_connection_vec(&from, &to, &cond));
    }
    string_from_chars(&out)
}

pub open spec fn removed_connection_blocks(
    blocks: Seq<Seq<char>>,
    from: Seq<char>,
    to: Seq<char>,
    cond: Option<Seq<char>>,
) -> Seq<char>
    decreases blocks.len(),
{
    if blocks.len() == 0 {
        seq![]
    } else {
        let b = blocks.last();
        let rest = removed_connection_blocks(blocks.drop_last(), from, to, cond);
        if connection_matches(b, from, cond) {
            let ts = without(array_field_spec(b, "to"@), to);
            if ts.len() > 0 {
                rest + connections_header() + replace_array_field_spec(b, "to"@, ts)
            } else {
                rest
            }
        } else {
            rest + connections_header() + b
        }
    }
}

/// The file with `to` taken out of every connection block from `from` under `cond`; a block
/// left without targets goes.
pub open spec fn remove_workflow_connection_spec(
    content: Seq<char>,
    from: Seq<char>,
    to: Seq<char>,
    cond: Option<Seq<char>>,
) -> Seq<char> {
    let ps = spec_split(content, connections_header());
    ps[0] + removed_connection_blocks(ps.drop_first(), from, to, cond)
}

/// Removes the edge `from -> to` under `condition` from the connection blocks of the file.
pub fn remove_workflow_connection(content: &str, from_id: &str, to_id: &str, condition: Option<&str>) -> (r:
    String)
    ensures
        r@ == remove_workflow_connection_spec(content@, from_id@, to_id@, opt_str_view(condition)),
{
    let c = chars_of(content);
    let from = chars_of(from_id);
    let to = chars_of(to_id);
    let cond = opt_vec(condition);
    let ghost cv = opt_str_view(condition);
    let header = header_vec(false);
    let to_key = literal("to");
    let blocks = split_exec(&c, &header);
    let ghost ps = views(blocks@);
    assert(ps.len() >= 1);
    let mut out = copy_vec(&blocks[0]);
    let mut k: usize = 1;
    assert(ps.drop_first().take(0) =~= seq![]);
    assert(out@ =~= ps[0] + removed_connection_blocks(ps.drop_first().take(0), from@, to@, cv));
    while k < blocks.len()
        invariant
            ps == views(blocks@),
            ps == spec_split(content@, connections_header()),
            header@ == connections_header(),
            to_key@ == "to"@,
            from@ == from_id@,
            to@ == to_id@,
            cv == match cond {
                Some(x) => Some(x@),
                None => None,
            },
            ps.len() >= 1,
            1 <= k <= blocks@.len(),
            out@ == ps[0] + removed_connection_blocks(ps.drop_first().take(k - 1), from@, to@, cv),
        decreases blocks.len() - k,
    {
        let b = &blocks[k];
        if condition_matches_exec(b, &from, &cond) {
            let targets = array_field_vec(b, &to_key);
            let targets = without_vec(&targets, &to);
            if targets.len() > 0 {
                push_all(&mut out, &header);
                push_all(&mut out, &replace_array_field_vec(b, &to_key, &targets));
            }
        } else {
            push_all(&mut out, &header);
            push_all(&mut out, b);
        }
        proof {
            let now = ps.drop_first().take(k as int);
            assert(now.drop_last() =~= ps.drop_first().take(k - 1));
            assert(now.last() == b@);
            assert(out@ =~= ps[0] + removed_connection_blocks(now, from@, to@, cv));
        }
        k = k + 1;
    }
    assert(ps.drop_first().take(blocks@.len() - 1) =~= ps.drop_first());
    string_from_chars(&out)
}

/// The fields of the first node, from the `k`-th on, named `id`.
pub open spec fn first_node_named(nodes: Seq<NodeFields>, id: Seq<char>, k: int) -> Option<NodeFields>
    decreases nodes.len() - k,
{
    if k < 0 || k >= nodes.len() {
        None
    } else if nodes[k].0 == id {
        Some(nodes[k])
    } else {
        first_node_named(nodes, id, k + 1)
    }
}

/// The dependencies the file gives the first node named `node_id`; none if there is no such node.
pub open spec fn node_dependencies(content: Seq<char>, node_id: Seq<char>) -> Seq<Seq<char>> {
    match first_node_named(nodes_spec(content), node_id, 0) {
        Some(n) => n.5,
        None => seq![],
    }
}

/// The input sources the file gives the first node named `node_id`; none if there is no such node.
pub open spec fn node_inputs(content: Seq<char>, node_id: Seq<char>) -> Seq<Seq<char>> {
    match first_node_named(nodes_spec(content), node_id, 0) {
        Some(n) => n.6,
        None => seq![],
    }
}

/// The dependencies (`deps` true) or the inputs of the first node named `node_id`.
fn node_list_vec(content: &str, node_id: &str, deps: bool) -> (r: Vec<Vec<char>>)
    ensures
        views(r@) == if deps {
            node_dependencies(content@, node_id@)
        } else {
            node_inputs(content@, node_id@)
        },
{
    let nodes = parse_workflow_nodes(content);
    let ghost ns = nodes@.map_values(|n: WorkflowNodeView| n@);
    let mut k: usize = 0;
    while k < nodes.len()
        invariant
            ns == nodes@.map_values(|n: WorkflowNodeView| n@),
            ns == nodes_spec(content@),
            k <= nodes@.len(),
            first_node_named(ns, node_id@, 0) == first_node_named(ns, node_id@, k as int),
        decreases nodes.len() - k,
    {
        assert(ns[k as int] == nodes@[k as int]@);
        if eq_str(nodes[k].id.as_str(), node_id) {
            if deps {
                return vecs_of(nodes[k].depends_on.as_slice());
            } else {
                return vecs_of(nodes[k].inputs.as_slice());
            }
        }
        k = k + 1;
    }
    let r: Vec<Vec<char>> = Vec::new();
    assert(views(r@) =~= seq![]);
    r
}

pub open spec fn remove_workflow_node_dependency_spec(
    content: Seq<char>,
    node_id: Seq<char>,
    dependency: Seq<char>,
) -> Seq<char> {
    set_workflow_node_dependencies_spec(
        content,
        node_id,
        without(node_dependencies(content, node_id), dependency),
    )
}

/// Drops `dependency` from the dependencies of the node `node_id`.
pub fn remove_workflow_node_dependency(content: &str, node_id: &str, dependency: &str) -> (r: String)
    ensures
        r@ == remove_workflow_node_dependency_spec(content@, node_id@, dependency@),
{
    let deps = node_list_vec(content, node_id, true);
    let kept = without_vec(&deps, &chars_of(dependency));
    string_from_chars(&set_list_vec(&chars_of(content), &chars_of(node_id), &kept, false))
}

pub open spec fn add_workflow_node_dependency_spec(
    content: Seq<char>,
    node_id: Seq<char>,
    dependency: Seq<char>,
) -> Seq<char> {
    set_workflow_node_dependencies_spec(
        content,
        node_id,
        with_target(node_dependencies(content, node_id), dependency),
    )
}

/// Adds `dependency` to the dependencies of the node `node_id`, unless it is there.
pub fn add_workflow_node_dependency(content: &str, node_id: &str, dependency: &str) -> (r: String)
    ensures
        r@ == add_workflow_node_dependency_spec(content@, node_id@, dependency@),
{
    let deps = node_list_vec(content, node_id, true);
    let all = with_target_vec(deps, &chars_of(dependency));
    string_from_chars(&set_list_vec(&chars_of(content), &chars_of(node_id), &all, false))
}

/// Where a new input goes: at the index asked for, or at the end when none is asked for or
/// the index is past the end.
pub open spec fn input_slot(index: Option<usize>, len: nat) -> int {
    match index {
        Some(i) => if i < len {
            i as int
        } else {
            len as int
        },
        None => len as int,
    }
}

pub open spec fn add_workflow_node_input_spec(
    content: Seq<char>,
    node_id: Seq<char>,
    source: Seq<char>,
    index: Option<usize>,
) -> Seq<char> {
    let ins = without(node_inputs(content, node_id), source);
    set_workflow_node_inputs_spec(content, node_id, ins.insert(input_slot(index, ins.len()), source))
}

/// Moves (or adds) `source` to the given place among the inputs of the node `node_id`.
pub fn add_workflow_node_input(
    content: &str,
    node_id: &str,
    source: &str,
    input_index: Option<usize>,
) -> (r: String)
    ensures
        r@ == add_workflow_node_input_spec(content@, node_id@, source@, input_index),
{
    let ins = node_list_vec(content, node_id, false);
    let src = chars_of(source);
    let mut kept = without_vec(&ins, &src);
    let n = kept.len();
    let index = match input_index {
        Some(i) => if i < n {
            i
        } else {
            n
        },
        None => n,
    };
    let ghost before = views(kept@);
    let s2 = copy_vec(&src);
    kept.insert(index, s2);
    assert(views(kept@) =~= before.insert(index as int, src@));
    string_from_chars(&set_list_vec(&chars_of(content), &chars_of(node_id), &kept, true))
}

proof fn lemma_without_is_filter(ts: Seq<Seq<char>>, t: Seq<char>)
    ensures
        without(ts, t) == ts.filter(|x: Seq<char>| x != t),
    decreases ts.len(),
{
    reveal(Seq::filter);
    if ts.len() > 0 {
        lemma_without_is_filter(ts.drop_last(), t);
    }
}

/// Moving or adding the input `source` of node `node_id` to `index` writes, as that node's
/// inputs, its old inputs with every `source` taken out, in their order, and `source` put in at
/// `index`, or at the end when no index is given or it is past the others: `source` then sits
/// at that place whether or not it was there before.
pub proof fn lemma_add_input_places_source(
    content: Seq<char>,
    node_id: Seq<char>,
    source: Seq<char>,
    index: Option<usize>,
)
    ensures
        exists|list: Seq<Seq<char>>|
            {
                let others = node_inputs(content, node_id).filter(|x: Seq<char>| x != source);
                let at = match index {
                    Some(i) => if i < others.len() {
                        i as int
                    } else {
                        others.len() as int
                    },
                    None => others.len() as int,
                };
                &&& #[trigger] set_workflow_node_inputs_spec(content, node_id, list)
                    == add_workflow_node_input_spec(content, node_id, source, index)
                &&& list.len() == others.len() + 1
                &&& list[at] == source
                &&& list.remove(at) == others
            },
{
    let cur = node_inputs(content, node_id);
    lemma_without_is_filter(cur, source);
    let others = cur.filter(|x: Seq<char>| x != source);
    let at = input_slot(index, others.len());
    let list = others.insert(at, source);
    assert(list.remove(at) =~= others);
    assert(set_workflow_node_inputs_spec(content, node_id, list) == add_workflow_node_input_spec(
        content,
        node_id,
        source,
        index,
    ));
}

pub open spec fn remove_workflow_node_input_spec(
    content: Seq<char>,
    node_id: Seq<char>,
    source: Seq<char>,
) -> Seq<char> {
    set_workflow_node_inputs_spec(content, node_id, without(node_inputs(content, node_id), source))
}

/// Drops `source` from the inputs of the node `node_id`.
pub fn remove_workflow_node_input(content: &str, node_id: &str, source: &str) -> (r: String)
    ensures
        r@ == remove_workflow_node_input_spec(content@, node_id@, source@),
{
    let ins = node_list_vec(content, node_id, false);
    let kept = without_vec(&ins, &chars_of(source));
    string_from_chars(&set_list_vec(&chars_of(content), &chars_of(node_id), &kept, true))
}

/// How many agent panes the window shows at once.
#[derive(Clone, Debug, PartialEq, Eq)]
pub struct GuiConfig {
    pub max_visible_panes: usize,
}

impl Default for GuiConfig {
    fn default() -> (r: Self)
        ensures
            r.max_visible_panes == 4,
    {
        GuiConfig { max_visible_panes: 4 }
    }
}

/// The `[gui]` section of the interface settings.
#[derive(Clone, Debug, PartialEq, Eq)]
pub struct GuiUiConfig {
    pub gui: GuiConfig,
}

impl Default for GuiUiConfig {
    fn default() -> (r: Self)
        ensures
            r.gui.max_visible_panes == 4,
    {
        GuiUiConfig { gui: GuiConfig::default() }
    }
}

/// The run controls as the user typed them.
#[derive(Clone, Debug)]
pub struct ControlFields {
    pub goal: String,
    pub config: String,
    pub artifact_dir: String,
    pub instruction_dir: String,
    pub max_parallel_agents: String,
    pub approve_golden_plan: bool,
}

/// The request that the run button starts: a goal is needed, empty path fields mean none,
/// and the parallelism field must be empty or a number.
pub fn request_from_fields(fields: &ControlFields, settings: Settings) -> (r: Result<
    GoalRequest,
    String,
>)
    ensures
        spec_trim(fields.goal@).len() == 0 ==> (r matches Err(e) && e@
            == "Enter a goal before starting a run."@),
        spec_trim(fields.goal@).len() > 0 && spec_trim(fields.max_parallel_agents@).len() > 0
            && parsed_usize(spec_trim(fields.max_parallel_agents@)) is None ==> (r matches Err(e)
            && e@ == "Max parallel agents must be a positive integer."@),
        spec_trim(fields.goal@).len() > 0 && (spec_trim(fields.max_parallel_agents@).len() == 0
            || parsed_usize(spec_trim(fields.max_parallel_agents@)) is Some) ==> (r matches Ok(q)
            && q.goal@ == spec_trim(fields.goal@) && opt_view(q.config) == trimmed_or_none(
            fields.config@,
        ) && q.settings == settings && opt_view(q.instruction_dir) == trimmed_or_none(
            fields.instruction_dir@,
        ) && opt_view(q.artifact_dir) == trimmed_or_none(fields.artifact_dir@) && (match q.max_parallel_agents {
            Some(n) => parsed_usize(spec_trim(fields.max_parallel_agents@)) == Some(n as nat),
            None => spec_trim(fields.max_parallel_agents@).len() == 0,
        }) && q.approve_golden_plan == fields.approve_golden_plan && !q.json),
{
    let goal = trim(fields.goal.as_str());
    if is_empty_str(goal.as_str()) {
        return Err(owned("Enter a goal before starting a run."));
    }
    let max_parallel_agents = match parse_optional_usize(fields.max_parallel_agents.as_str()) {
        Ok(m) => m,
        Err(e) => {
            return Err(e);
        },
    };
    Ok(
        GoalRequest {
            goal,
            config: optional_path(fields.config.as_str()),
            settings,
            instruction_dir: optional_path(fields.instruction_dir.as_str()),
            artifact_dir: optional_path(fields.artifact_dir.as_str()),
            max_parallel_agents,
            approve_golden_plan: fields.approve_golden_plan,
            json: false,
        },
    )
}

proof fn lemma_kept_node_blocks_all(blocks: Seq<Seq<char>>, id: Seq<char>)
    requires
        forall|k: int| 0 <= k < blocks.len() ==> string_field_spec(#[trigger] blocks[k], "id"@) != Some(id),
    ensures
        kept_node_blocks(blocks, id) == concat_with(blocks, nodes_header()),
    decreases blocks.len(),
{
    if blocks.len() > 0 {
        assert(string_field_spec(blocks[blocks.len() - 1], "id"@) != Some(id));
        lemma_kept_node_blocks_all(blocks.drop_last(), id);
    }
}

/// Removing a node that no node block names leaves the file as it was.
pub proof fn lemma_removing_unnamed_node_keeps_file(content: Seq<char>, id: Seq<char>)
    requires
        forall|k: int|
            0 <= k < node_blocks(content).len() ==> string_field_spec(
                #[trigger] node_blocks(content)[k],
                "id"@,
            ) != Some(id),
    ensures
        remove_workflow_node_spec(content, id) == content,
{
    reveal_strlit("[[orchestration.nodes]]");
    lemma_split_rejoins(content, nodes_header());
    lemma_kept_node_blocks_all(node_blocks(content), id);
}

proof fn lemma_set_line_blocks_all(
    blocks: Seq<Seq<char>>,
    node_id: Seq<char>,
    word: Seq<char>,
    extra: Seq<Seq<char>>,
)
    requires
        forall|k: int| 0 <= k < blocks.len() ==> string_field_spec(#[trigger] blocks[k], "id"@) != Some(node_id),
    ensures
        set_line_blocks(blocks, node_id, word, extra) == concat_with(blocks, nodes_header()),
    decreases blocks.len(),
{
    if blocks.len() > 0 {
        assert(string_field_spec(blocks[blocks.len() - 1], "id"@) != Some(node_id));
        lemma_set_line_blocks_all(blocks.drop_last(), node_id, word, extra);
    }
}

/// Setting the inputs or the dependencies of a node that no node block names leaves the file as
/// it was.
pub proof fn lemma_editing_unnamed_node_keeps_file(
    content: Seq<char>,
    node_id: Seq<char>,
    values: Seq<Seq<char>>,
)
    requires
        forall|k: int|
            0 <= k < node_blocks(content).len() ==> string_field_spec(
                #[trigger] node_blocks(content)[k],
                "id"@,
            ) != Some(node_id),
    ensures
        set_workflow_node_inputs_spec(content, node_id, values) == content,
        set_workflow_node_dependencies_spec(content, node_id, values) == content,
{
    reveal_strlit("[[orchestration.nodes]]");
    lemma_split_rejoins(content, nodes_header());
    lemma_set_line_blocks_all(
        node_blocks(content),
        node_id,
        "inputs"@,
        line_unless_empty(values, inputs_line(values)),
    );
    lemma_set_line_blocks_all(
        node_blocks(content),
        node_id,
        "depends_on"@,
        line_unless_empty(values, depends_on_line(values)),
    );
}

proof fn lemma_removed_connection_blocks_all(
    blocks: Seq<Seq<char>>,
    from: Seq<char>,
    to: Seq<char>,
    cond: Option<Seq<char>>,
)
    requires
        forall|k: int| 0 <= k < blocks.len() ==> !connection_matches(#[trigger] blocks[k], from, cond),
    ensures
        removed_connection_blocks(blocks, from, to, cond) == concat_with(blocks, connections_header()),
    decreases blocks.len(),
{
    if blocks.len() > 0 {
        assert(!connection_matches(blocks[blocks.len() - 1], from, cond));
        lemma_removed_connection_blocks_all(blocks.drop_last(), from, to, cond);
    }
}

/// Removing an edge from a source and condition that no connection block has leaves the file
/// as it was.
pub proof fn lemma_removing_unknown_edge_keeps_file(
    content: Seq<char>,
    from: Seq<char>,
    to: Seq<char>,
    cond: Option<Seq<char>>,
)
    requires
        forall|k: int|
            0 <= k < connection_blocks(content).len() ==> !connection_matches(
                #[trigger] connection_blocks(content)[k],
                from,
                cond,
            ),
    ensures
        remove_workflow_connection_spec(content, from, to, cond) == content,
{
    reveal_strlit("[[orchestration.connections]]");
    lemma_split_rejoins(content, connections_header());
    lemma_removed_connection_blocks_all(connection_blocks(content), from, to, cond);
}

/// How the workflow picker names a file: its file name, then its directory in brackets
/// when it has a non-empty one.
pub open spec fn workflow_config_label_spec(path: Seq<char>) -> Seq<char> {
    let name = match path_file_name(path) {
        Some(n) => n,
        None => path,
    };
    match path_parent(path) {
        Some(p) if p.len() > 0 => name + " ("@ + p + ")"@,
        _ => name,
    }
}

pub fn workflow_config_label(path: &str) -> (r: String)
    ensures
        r@ == workflow_config_label_spec(path@),
{
    let name = match file_name(path) {
        Some(n) => n,
        None => owned(path),
    };
    match parent(path) {
        Some(p) => {
            if is_empty_str(p.as_str()) {
                name
            } else {
                let head = join3(name.as_str(), " (", p.as_str());
                cat(head.as_str(), ")")
            }
        },
        None => name,
    }
}

/// The picker's caption: the selected file's name, or the default configuration when the
/// field is blank.
pub open spec fn selected_config_label_spec(value: Seq<char>) -> Seq<char> {
    let t = spec_trim(value);
    if t.len() == 0 {
        "Selected: "@ + DEFAULT_CONFIG_PATH@
    } else {
        "Selected: "@ + match path_file_name(t) {
            Some(n) => n,
            None => t,
        }
    }
}

pub fn selected_config_label(value: &str) -> (r: String)
    ensures
        r@ == selected_config_label_spec(value@),
{
    let t = trim(value);
    if is_empty_str(t.as_str()) {
        return cat("Selected: ", DEFAULT_CONFIG_PATH);
    }
    match file_name(t.as_str()) {
        Some(n) => cat("Selected: ", n.as_str()),
        None => cat("Selected: ", t.as_str()),
    }
}

/// The settings a new workflow file starts with.
pub open spec fn workflow_preamble() -> Seq<char> {
    "[orchestration]\nmax_parallel_agents = 8\napproval_mode = \"auto\"\n\n"@
}

/// The block of a new agent node.
pub open spec fn agent_node_block(id: Seq<char>) -> Seq<char> {
    "[[orchestration.nodes]]\nid = \""@ + id
        + "\"\noutput_contract = \"implementation\"\ninstruction = \"work.md\"\n\n"@
}

/// The block of a new branch node.
pub open spec fn branch_node_block(id: Seq<char>) -> Seq<char> {
    "[[orchestration.nodes]]\nid = \""@ + id
        + "\"\nkind = \"branch\"\nevaluation = \"input contains signed_off = true\"\noutput_contract = \"branch\"\n\n"@
}

/// The text a new node is appended to: the file, or the preamble when the file is blank.
pub open spec fn base_for_new_node(content: Seq<char>) -> Seq<char> {
    if spec_trim(content).len() == 0 {
        workflow_preamble()
    } else {
        content
    }
}

pub open spec fn content_node_ids(content: Seq<char>) -> Seq<Seq<char>> {
    nodes_spec(content).map_values(|n: NodeFields| n.0)
}

fn new_node(content: &str, branch: bool) -> (r: (String, String))
    ensures
        is_first_free_id(
            content_node_ids(content@),
            if branch {
                "branch"@
            } else {
                "agent"@
            },
            r.1@,
        ),
        r.0@ == base_for_new_node(content@) + if branch {
            branch_node_block(r.1@)
        } else {
            agent_node_block(r.1@)
        },
{
    let nodes = parse_workflow_nodes(content);
    let cv = chars_of(content);
    let cl = cv.len();
    proof {
        reveal_strlit("[[orchestration.nodes]]");
        lemma_split_from_count(content@, nodes_header(), 0);
        assert(cv@.len() == cl);
        assert(nodes@.map_values(|n: WorkflowNodeView| n@).len() == nodes@.len());
        assert(nodes_spec(content@).len() == node_blocks(content@).len());
        assert(nodes@.len() == node_blocks(content@).len());
        assert(node_blocks(content@).len() == spec_split(content@, nodes_header()).len() - 1);
        assert(nodes@.len() * 23 <= cl) by (nonlinear_arith)
            requires
                nodes@.len() * 23 <= content@.len(),
                content@.len() == cl,
        {}
        assert(node_ids(nodes@) =~= content_node_ids(content@)) by {
            assert forall|k: int| 0 <= k < nodes@.len() implies node_ids(nodes@)[k]
                == content_node_ids(content@)[k] by {
                assert(nodes@.map_values(|n: WorkflowNodeView| n@)[k] == nodes_spec(content@)[k]);
            }
        }
    }
    let id = if branch {
        unique_prefixed_workflow_node_id(nodes.as_slice(), "branch")
    } else {
        unique_prefixed_workflow_node_id(nodes.as_slice(), "agent")
    };
    let mut text = if is_blank(content) {
        owned("[orchestration]\nmax_parallel_agents = 8\napproval_mode = \"auto\"\n\n")
    } else {
        owned(content)
    };
    proof {
        lemma_blank_trims_empty(content@);
    }
    text.append("[[orchestration.nodes]]\nid = \"");
    text.append(id.as_str());
    if branch {
        text.append(
            "\"\nkind = \"branch\"\nevaluation = \"input contains signed_off = true\"\noutput_contract = \"branch\"\n\n",
        );
    } else {
        text.append("\"\noutput_contract = \"implementation\"\ninstruction = \"work.md\"\n\n");
    }
    (text, id)
}

/// A blank text trims to nothing, and a text that is not blank does not.
proof fn lemma_blank_trims_empty(s: Seq<char>)
    ensures
        spec_is_blank(s) <==> spec_trim(s).len() == 0,
{
    crate::text::lemma_trim_start_blank(s);
}

/// Appends a new agent node to the file (started anew when blank) and names it.
pub fn append_agent_node(content: &str) -> (r: (String, String))
    ensures
        is_first_free_id(content_node_ids(content@), "agent"@, r.1@),
        r.0@ == base_for_new_node(content@) + agent_node_block(r.1@),
{
    new_node(content, false)
}

/// Appends a new branch node to the file (started anew when blank) and names it.
pub fn append_branch_node(content: &str) -> (r: (String, String))
    ensures
        is_first_free_id(content_node_ids(content@), "branch"@, r.1@),
        r.0@ == base_for_new_node(content@) + branch_node_block(r.1@),
{
    new_node(content, true)
}

/// A number typed into an optional field: none when blank or not a `usize`.
pub fn optional_usize_text(text: &str) -> (r: Option<usize>)
    ensures
        spec_trim(text@).len() == 0 ==> r is None,
        spec_trim(text@).len() > 0 ==> match parsed_usize(spec_trim(text@)) {
            Some(n) => r matches Some(m) && m as nat == n,
            None => r is None,
        },
{
    match parse_optional_usize(text) {
        Ok(v) => v,
        Err(_) => None,
    }
}

} // verus!
