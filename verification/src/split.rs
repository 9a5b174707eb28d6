//! Finding, splitting, joining and line-breaking over character sequences, with the
//! semantics of `str::find`, `str::split`, `str::lines` and `[String]::join`.
use vstd::prelude::*;
use crate::text::{
    chars_of, lemma_trim_start_skip, occurs_at, occurs_at_exec, spec_is_whitespace, spec_trim,
    string_from_chars, trim, trim_start, is_whitespace,
};

verus! {

/// The first position at or after `i` where the non-empty `pat` occurs in `s`, or -1.
pub open spec fn find_from(s: Seq<char>, pat: Seq<char>, i: int) -> int
    decreases s.len() - i,
{
    if i < 0 || i >= s.len() || i + pat.len() > s.len() {
        -1
    } else if occurs_at(s, pat, i) {
        i
    } else {
        find_from(s, pat, i + 1)
    }
}

/// A position found for `pat` from `i` lies at or after `i`, and `pat` occurs there.
pub proof fn lemma_find_from_bounds(s: Seq<char>, pat: Seq<char>, i: int)
    ensures
        find_from(s, pat, i) == -1 || (i <= find_from(s, pat, i) && find_from(s, pat, i)
            + pat.len() <= s.len() && find_from(s, pat, i) < s.len() && occurs_at(
            s,
            pat,
            find_from(s, pat, i),
        )),
    decreases s.len() - i,
{
    if !(i < 0 || i >= s.len() || i + pat.len() > s.len()) && !occurs_at(s, pat, i) {
        lemma_find_from_bounds(s, pat, i + 1);
    }
}

/// The pieces of `s[i..]` between occurrences of the non-empty `pat`, as `str::split` gives them.
pub open spec fn split_from(s: Seq<char>, pat: Seq<char>, i: int) -> Seq<Seq<char>>
    decreases s.len() - i,
{
    let j = find_from(s, pat, i);
    if pat.len() == 0 || i < 0 || i > s.len() || j < 0 {
        seq![s.subrange(i, s.len() as int)]
    } else {
        proof {
            lemma_find_from_bounds(s, pat, i);
        }
        seq![s.subrange(i, j)] + split_from(s, pat, j + pat.len())
    }
}

pub open spec fn spec_split(s: Seq<char>, pat: Seq<char>) -> Seq<Seq<char>> {
    split_from(s, pat, 0)
}

/// A line without the carriage return that preceded its newline.
pub open spec fn strip_cr(l: Seq<char>) -> Seq<char> {
    if l.len() > 0 && l.last() == '\r' {
        l.drop_last()
    } else {
        l
    }
}

/// The lines of `s[i..]`, as `str::lines` gives them: split at each newline, a carriage return
/// before a newline dropped, and no empty line after a final newline.
pub open spec fn lines_from(s: Seq<char>, i: int) -> Seq<Seq<char>>
    decreases s.len() - i,
{
    let j = find_from(s, seq!['\n'], i);
    if i < 0 || i >= s.len() {
        seq![]
    } else if j < 0 {
        seq![s.subrange(i, s.len() as int)]
    } else {
        proof {
            lemma_find_from_bounds(s, seq!['\n'], i);
        }
        seq![strip_cr(s.subrange(i, j))] + lines_from(s, j + 1)
    }
}

pub open spec fn spec_lines(s: Seq<char>) -> Seq<Seq<char>> {
    lines_from(s, 0)
}

/// The parts joined with `sep` between neighbours, as `join` does.
pub open spec fn join(parts: Seq<Seq<char>>, sep: Seq<char>) -> Seq<char>
    decreases parts.len(),
{
    if parts.len() == 0 {
        seq![]
    } else if parts.len() == 1 {
        parts[0]
    } else {
        join(parts.drop_last(), sep) + sep + parts.last()
    }
}

/// The character sequences held by a vector of character vectors.
pub open spec fn views(v: Seq<Vec<char>>) -> Seq<Seq<char>> {
    v.map_values(|x: Vec<char>| x@)
}

/// Pushing a vector pushes its characters onto the views.
pub proof fn lemma_views_push(v: Seq<Vec<char>>, x: Vec<char>)
    ensures
        views(v.push(x)) == views(v).push(x@),
{
    assert(views(v.push(x)) =~= views(v).push(x@));
}

/// The characters `v[lo..hi]`.
pub fn sub_vec(v: &Vec<char>, lo: usize, hi: usize) -> (r: Vec<char>)
    requires
        lo <= hi <= v@.len(),
    ensures
        r@ == v@.subrange(lo as int, hi as int),
{
    let mut r: Vec<char> = Vec::new();
    let mut k = lo;
    while k < hi
        invariant
            lo <= k <= hi <= v@.len(),
            r@ == v@.subrange(lo as int, k as int),
        decreases hi - k,
    {
        r.push(v[k]);
        k = k + 1;
        assert(r@ =~= v@.subrange(lo as int, k as int));
    }
    r
}

/// Appends every character of `src` to `out`.
pub fn push_all(out: &mut Vec<char>, src: &Vec<char>)
    ensures
        final(out)@ == old(out)@ + src@,
{
    let mut k: usize = 0;
    while k < src.len()
        invariant
            k <= src@.len(),
            out@ == old(out)@ + src@.subrange(0, k as int),
        decreases src.len() - k,
    {
        out.push(src[k]);
        k = k + 1;
        assert(out@ =~= old(out)@ + src@.subrange(0, k as int));
    }
    assert(src@.subrange(0, src@.len() as int) =~= src@);
}

/// The first position at or after `i` where the non-empty `pat` occurs in `v`.
pub fn find_exec(v: &Vec<char>, pat: &Vec<char>, i: usize) -> (r: Option<usize>)
    requires
        pat@.len() > 0,
    ensures
        match r {
            Some(j) => find_from(v@, pat@, i as int) == j as int,
            None => find_from(v@, pat@, i as int) == -1,
        },
{
    let mut j = i;
    loop
        invariant
            i <= j,
            pat@.len() > 0,
            find_from(v@, pat@, i as int) == find_from(v@, pat@, j as int),
        decreases v@.len() - j,
    {
        if j >= v.len() || pat.len() > v.len() - j {
            return None;
        }
        if occurs_at_exec(v, pat, j) {
            return Some(j);
        }
        j = j + 1;
    }
}

/// The pieces of `v` between occurrences of the non-empty `pat`.
pub fn split_exec(v: &Vec<char>, pat: &Vec<char>) -> (r: Vec<Vec<char>>)
    requires
        pat@.len() > 0,
    ensures
        views(r@) == spec_split(v@, pat@),
{
    let mut out: Vec<Vec<char>> = Vec::new();
    let mut i: usize = 0;
    assert(views(out@) =~= seq![]);
    assert(seq![] + split_from(v@, pat@, 0) =~= split_from(v@, pat@, 0));
    loop
        invariant
            i <= v@.len(),
            pat@.len() > 0,
            spec_split(v@, pat@) == views(out@) + split_from(v@, pat@, i as int),
        decreases v@.len() - i,
    {
        let found = find_exec(v, pat, i);
        proof {
            lemma_find_from_bounds(v@, pat@, i as int);
        }
        match found {
            None => {
                let piece = sub_vec(v, i, v.len());
                proof {
                    lemma_views_push(out@, piece);
                }
                out.push(piece);
                assert(views(out@) =~= spec_split(v@, pat@));
                return out;
            },
            Some(j) => {
                let vl = v.len();
                assert(j + pat@.len() <= vl);
                let piece = sub_vec(v, i, j);
                proof {
                    lemma_views_push(out@, piece);
                    assert(views(out@).push(piece@) + split_from(v@, pat@, j + pat@.len())
                        =~= views(out@) + split_from(v@, pat@, i as int));
                }
                out.push(piece);
                i = j + pat.len();
            },
        }
    }
}

/// The lines of `v`, as `str::lines` gives them.
pub fn lines_exec(v: &Vec<char>) -> (r: Vec<Vec<char>>)
    ensures
        views(r@) == spec_lines(v@),
{
    let mut nl: Vec<char> = Vec::new();
    nl.push('\n');
    assert(nl@ =~= seq!['\n']);
    let mut out: Vec<Vec<char>> = Vec::new();
    let mut i: usize = 0;
    assert(seq![] + lines_from(v@, 0) =~= lines_from(v@, 0));
    loop
        invariant
            i <= v@.len(),
            nl@ == seq!['\n'],
            spec_lines(v@) == views(out@) + lines_from(v@, i as int),
        decreases v@.len() - i,
    {
        if i >= v.len() {
            assert(lines_from(v@, i as int) =~= seq![]);
            assert(views(out@) + seq![] =~= views(out@));
            return out;
        }
        let found = find_exec(v, &nl, i);
        proof {
            lemma_find_from_bounds(v@, seq!['\n'], i as int);
        }
        match found {
            None => {
                let piece = sub_vec(v, i, v.len());
                proof {
                    lemma_views_push(out@, piece);
                }
                out.push(piece);
                assert(views(out@) =~= spec_lines(v@));
                return out;
            },
            Some(j) => {
                let mut piece = sub_vec(v, i, j);
                if piece.len() > 0 && piece[piece.len() - 1] == '\r' {
                    piece.pop();
                }
                assert(piece@ =~= strip_cr(v@.subrange(i as int, j as int)));
                proof {
                    lemma_views_push(out@, piece);
                    assert(views(out@).push(piece@) + lines_from(v@, j + 1) =~= views(out@)
                        + lines_from(v@, i as int));
                }
                out.push(piece);
                i = j + 1;
            },
        }
    }
}

/// The parts joined with `sep` between neighbours.
pub fn join_exec(parts: &Vec<Vec<char>>, sep: &Vec<char>) -> (r: Vec<char>)
    ensures
        r@ == join(views(parts@), sep@),
{
    let mut out: Vec<char> = Vec::new();
    let mut k: usize = 0;
    while k < parts.len()
        invariant
            k <= parts@.len(),
            out@ == join(views(parts@).take(k as int), sep@),
        decreases parts.len() - k,
    {
        let ghost before = views(parts@).take(k as int);
        if k > 0 {
            push_all(&mut out, sep);
        }
        push_all(&mut out, &parts[k]);
        k = k + 1;
        proof {
            let now = views(parts@).take(k as int);
            assert(now.drop_last() =~= before);
            assert(now.last() == parts@[k - 1]@);
            if k == 1 {
                assert(before =~= seq![]);
                assert(out@ =~= parts@[0]@);
            }
        }
    }
    assert(views(parts@).take(parts@.len() as int) =~= views(parts@));
    out
}

/// `v` with leading and trailing whitespace removed, as `str::trim` does.
pub fn trim_vec(v: &Vec<char>) -> (r: Vec<char>)
    ensures
        r@ == spec_trim(v@),
{
    let s = string_from_chars(v);
    let t = trim(s.as_str());
    chars_of(t.as_str())
}

/// `v` with leading whitespace removed, as `str::trim_start` does.
pub fn trim_start_vec(v: &Vec<char>) -> (r: Vec<char>)
    ensures
        r@ == trim_start(v@),
{
    let mut i: usize = 0;
    while i < v.len() && is_whitespace(v[i])
        invariant
            i <= v@.len(),
            forall|k: int| 0 <= k < i ==> spec_is_whitespace(#[trigger] v@[k]),
        decreases v.len() - i,
    {
        i = i + 1;
    }
    proof {
        lemma_trim_start_skip(v@, i as int);
    }
    let r = sub_vec(v, i, v.len());
    assert(trim_start(r@) == r@);
    r
}

/// A copy of `v`.
pub fn copy_vec(v: &Vec<char>) -> (r: Vec<char>)
    ensures
        r@ == v@,
{
    let r = sub_vec(v, 0, v.len());
    assert(v@.subrange(0, v@.len() as int) =~= v@);
    r
}

/// The blocks, each after a copy of `sep`, one after another.
pub open spec fn concat_with(blocks: Seq<Seq<char>>, sep: Seq<char>) -> Seq<char>
    decreases blocks.len(),
{
    if blocks.len() == 0 {
        seq![]
    } else {
        concat_with(blocks.drop_last(), sep) + sep + blocks.last()
    }
}

proof fn lemma_concat_with_prepend(x: Seq<char>, rest: Seq<Seq<char>>, sep: Seq<char>)
    ensures
        concat_with(seq![x] + rest, sep) == sep + x + concat_with(rest, sep),
    decreases rest.len(),
{
    if rest.len() == 0 {
        let xr = seq![x] + rest;
        assert(xr.drop_last() =~= seq![]);
        assert(xr.last() == x);
        assert(concat_with(xr.drop_last(), sep) == Seq::<char>::empty());
        assert(concat_with(rest, sep) == Seq::<char>::empty());
        assert(concat_with(xr, sep) =~= sep + x + concat_with(rest, sep));
    } else {
        lemma_concat_with_prepend(x, rest.drop_last(), sep);
        let xr = seq![x] + rest;
        assert(xr.drop_last() =~= seq![x] + rest.drop_last());
        assert(xr.last() == rest.last());
        assert(concat_with(xr, sep) == concat_with(xr.drop_last(), sep) + sep + xr.last());
        assert(concat_with(rest, sep) == concat_with(rest.drop_last(), sep) + sep + rest.last());
        assert(concat_with(xr, sep) =~= sep + x + concat_with(rest, sep));
    }
}

proof fn lemma_split_from_rejoins(s: Seq<char>, pat: Seq<char>, i: int)
    requires
        pat.len() > 0,
        0 <= i <= s.len(),
    ensures
        split_from(s, pat, i).len() >= 1,
        split_from(s, pat, i)[0] + concat_with(split_from(s, pat, i).drop_first(), pat)
            == s.subrange(i, s.len() as int),
    decreases s.len() - i,
{
    let j = find_from(s, pat, i);
    lemma_find_from_bounds(s, pat, i);
    let sp = split_from(s, pat, i);
    if j < 0 {
        assert(sp.drop_first() =~= seq![]);
        assert(sp[0] + concat_with(sp.drop_first(), pat) =~= s.subrange(i, s.len() as int));
    } else {
        let n = j + pat.len();
        lemma_split_from_rejoins(s, pat, n);
        let r = split_from(s, pat, n);
        assert(sp.drop_first() =~= r);
        assert(r =~= seq![r[0]] + r.drop_first());
        lemma_concat_with_prepend(r[0], r.drop_first(), pat);
        assert(concat_with(r, pat) == pat + r[0] + concat_with(r.drop_first(), pat));
        assert(r[0] + concat_with(r.drop_first(), pat) == s.subrange(n, s.len() as int));
        assert(s.subrange(j, n) =~= pat);
        assert(sp[0] == s.subrange(i, j));
        assert(concat_with(r, pat) =~= pat + s.subrange(n, s.len() as int));
        assert(s.subrange(i, j) + (pat + s.subrange(n, s.len() as int)) =~= s.subrange(
            i,
            s.len() as int,
        ));
    }
}

/// Splitting a text at a non-empty separator and putting the separator back between the pieces
/// gives the text again.
pub proof fn lemma_split_rejoins(s: Seq<char>, pat: Seq<char>)
    requires
        pat.len() > 0,
    ensures
        spec_split(s, pat).len() >= 1,
        spec_split(s, pat)[0] + concat_with(spec_split(s, pat).drop_first(), pat) == s,
{
    lemma_split_from_rejoins(s, pat, 0);
    assert(s.subrange(0, s.len() as int) =~= s);
}

/// Each piece after the first follows a whole separator, so there are at most as many of
/// them as separators fit in the text.
pub proof fn lemma_split_from_count(s: Seq<char>, pat: Seq<char>, i: int)
    requires
        pat.len() > 0,
        0 <= i <= s.len(),
    ensures
        (split_from(s, pat, i).len() - 1) * pat.len() <= s.len() - i,
    decreases s.len() - i,
{
    let j = find_from(s, pat, i);
    lemma_find_from_bounds(s, pat, i);
    if j >= 0 {
        let n = j + pat.len();
        lemma_split_from_count(s, pat, n);
        let k = split_from(s, pat, n).len();
        assert(split_from(s, pat, i).len() == k + 1);
        assert((k - 1) * pat.len() <= s.len() - n);
        assert(k * pat.len() == (k - 1) * pat.len() + pat.len()) by (nonlinear_arith);
        assert(k * pat.len() <= s.len() - i);
        assert((split_from(s, pat, i).len() - 1) == k);
    } else {
        assert(split_from(s, pat, i).len() == 1);
        assert((split_from(s, pat, i).len() - 1) * pat.len() == 0);
    }
}

} // verus!
