//! Depth-first cycle detection over a dependency graph given by adjacency lists.
use vstd::prelude::*;

use crate::text::{eq_str, less_str};

verus! {

pub const WHITE: u8 = 0;

pub const GRAY: u8 = 1;

pub const BLACK: u8 = 2;

/// Every adjacency entry names a node of the graph.
pub open spec fn adj_wf(adj: Seq<Seq<usize>>) -> bool {
    forall|a: int, k: int|
        0 <= a < adj.len() && 0 <= k < adj[a].len() ==> (#[trigger] adj[a][k]) < adj.len()
}

pub open spec fn edge(adj: Seq<Seq<usize>>, a: int, b: int) -> bool {
    0 <= a < adj.len() && exists|k: int| 0 <= k < adj[a].len() && #[trigger] adj[a][k] as int == b
}

/// A walk of at least one edge.
pub open spec fn is_path(adj: Seq<Seq<usize>>, p: Seq<int>) -> bool {
    p.len() >= 2 && forall|i: int| 0 <= i < p.len() - 1 ==> #[trigger] edge(adj, p[i], p[i + 1])
}

/// `x` lies on a cycle: some walk leads from `x` back to `x`.
pub open spec fn on_cycle(adj: Seq<Seq<usize>>, x: int) -> bool {
    exists|p: Seq<int>| is_path(adj, p) && p[0] == x && p.last() == x
}

/// No walk returns to where it started.
pub open spec fn acyclic(adj: Seq<Seq<usize>>) -> bool {
    forall|p: Seq<int>| is_path(adj, p) ==> p[0] != p.last()
}

spec fn black_closed(adj: Seq<Seq<usize>>, c: Seq<u8>) -> bool {
    forall|a: int, b: int|
        0 <= a < c.len() && 0 <= b < c.len() && c[a] == BLACK && #[trigger] edge(adj, a, b)
            ==> c[b] == BLACK
}

spec fn black_acyclic(adj: Seq<Seq<usize>>, c: Seq<u8>) -> bool {
    forall|p: Seq<int>|
        #![trigger is_path(adj, p)]
        is_path(adj, p) && 0 <= p[0] < c.len() && c[p[0]] == BLACK ==> p.last() != p[0]
}

spec fn stack_ok(adj: Seq<Seq<usize>>, c: Seq<u8>, stack: Seq<int>) -> bool {
    &&& forall|i: int| 0 <= i < c.len() ==> (c[i] == GRAY <==> stack.contains(i))
    &&& forall|j: int| 0 <= j < stack.len() ==> 0 <= #[trigger] stack[j] < c.len()
    &&& forall|j: int| 0 <= j < stack.len() - 1 ==> #[trigger] edge(adj, stack[j], stack[j + 1])
}

spec fn colors_ok(c: Seq<u8>) -> bool {
    forall|i: int| 0 <= i < c.len() ==> #[trigger] c[i] <= BLACK
}

spec fn white_count(c: Seq<u8>) -> nat
    decreases c.len(),
{
    if c.len() == 0 {
        0
    } else {
        (if c.last() == WHITE {
            1nat
        } else {
            0nat
        }) + white_count(c.drop_last())
    }
}

/// Non-white entries stay non-white.
spec fn advanced(c0: Seq<u8>, c1: Seq<u8>) -> bool {
    &&& c0.len() == c1.len()
    &&& forall|i: int| 0 <= i < c0.len() && c0[i] != WHITE ==> #[trigger] c1[i] != WHITE
}

proof fn lemma_white_count_mono(c0: Seq<u8>, c1: Seq<u8>)
    requires
        advanced(c0, c1),
    ensures
        white_count(c1) <= white_count(c0),
    decreases c0.len(),
{
    if c0.len() > 0 {
        let d0 = c0.drop_last();
        let d1 = c1.drop_last();
        assert forall|i: int| 0 <= i < d0.len() && d0[i] != WHITE implies #[trigger] d1[i]
            != WHITE by {
            assert(c0[i] != WHITE);
        }
        lemma_white_count_mono(d0, d1);
    }
}

proof fn lemma_white_count_strict(c0: Seq<u8>, c1: Seq<u8>, v: int)
    requires
        advanced(c0, c1),
        0 <= v < c0.len(),
        c0[v] == WHITE,
        c1[v] != WHITE,
    ensures
        white_count(c1) < white_count(c0),
    decreases c0.len(),
{
    let d0 = c0.drop_last();
    let d1 = c1.drop_last();
    assert forall|i: int| 0 <= i < d0.len() && d0[i] != WHITE implies #[trigger] d1[i]
        != WHITE by {
        assert(c0[i] != WHITE);
    }
    if v == c0.len() - 1 {
        lemma_white_count_mono(d0, d1);
    } else {
        lemma_white_count_strict(d0, d1, v);
    }
}

proof fn lemma_path_edge(adj: Seq<Seq<usize>>, p: Seq<int>, i: int)
    requires
        is_path(adj, p),
        0 <= i < p.len() - 1,
    ensures
        edge(adj, p[i], p[i + 1]),
{
}

proof fn lemma_path_stays_black(adj: Seq<Seq<usize>>, c: Seq<u8>, p: Seq<int>, i: int)
    requires
        adj.len() == c.len(),
        adj_wf(adj),
        is_path(adj, p),
        0 <= p[0] < c.len(),
        c[p[0]] == BLACK,
        black_closed(adj, c),
        0 <= i < p.len(),
    ensures
        0 <= p[i] < c.len(),
        c[p[i]] == BLACK,
    decreases i,
{
    if i > 0 {
        lemma_path_stays_black(adj, c, p, i - 1);
        lemma_path_edge(adj, p, i - 1);
        let k = choose|k: int| 0 <= k < adj[p[i - 1]].len() && #[trigger] adj[p[i - 1]][k] as int == p[i];
        assert(adj[p[i - 1]][k] < adj.len());
    }
}

fn visit(adj: &Vec<Vec<usize>>, colors: &mut Vec<u8>, v: usize, Ghost(stack): Ghost<Seq<int>>) -> (r:
    Option<usize>)
    requires
        adj_wf(adj.deep_view()),
        old(colors)@.len() == adj@.len(),
        colors_ok(old(colors)@),
        v < adj@.len(),
        old(colors)@[v as int] == WHITE,
        stack_ok(adj.deep_view(), old(colors)@, stack),
        stack.len() > 0 ==> edge(adj.deep_view(), stack.last(), v as int),
        black_closed(adj.deep_view(), old(colors)@),
        black_acyclic(adj.deep_view(), old(colors)@),
    ensures
        advanced(old(colors)@, final(colors)@),
        colors_ok(final(colors)@),
        match r {
            None => {
                &&& final(colors)@[v as int] == BLACK
                &&& forall|i: int|
                    0 <= i < final(colors)@.len() ==> (old(colors)@[i] == GRAY <==> #[trigger] final(colors)@[i] == GRAY)
                &&& forall|i: int|
                    0 <= i < final(colors)@.len() && old(colors)@[i] == BLACK ==> #[trigger] final(colors)@[i] == BLACK
                &&& black_closed(adj.deep_view(), final(colors)@)
                &&& black_acyclic(adj.deep_view(), final(colors)@)
            },
            Some(x) => x < adj@.len() && on_cycle(adj.deep_view(), x as int),
        },
    decreases white_count(old(colors)@),
{
    let ghost g = adj.deep_view();
    let ghost c0 = colors@;
    colors.set(v, GRAY);
    let ghost st = stack.push(v as int);
    let ghost c1 = colors@;
    proof {
        assert forall|i: int| 0 <= i < c1.len() implies (c1[i] == GRAY <==> st.contains(i)) by {
            if i == v {
                assert(st[st.len() - 1] == i);
            } else if stack.contains(i) {
                let j = choose|j: int| 0 <= j < stack.len() && #[trigger] stack[j] == i;
                assert(st[j] == i);
            } else if st.contains(i) {
                let j = choose|j: int| 0 <= j < st.len() && #[trigger] st[j] == i;
                assert(j < stack.len());
                assert(stack[j] == i);
            }
        }
        assert forall|j: int| 0 <= j < st.len() - 1 implies #[trigger] edge(g, st[j], st[j + 1]) by {
            if j < stack.len() - 1 {
                assert(edge(g, stack[j], stack[j + 1]));
            }
        }
        assert(advanced(c0, c1));
        lemma_white_count_strict(c0, c1, v as int);
        assert(black_closed(g, c1));
        assert(black_acyclic(g, c1));
    }
    let succ = &adj[v];
    assert(succ@ == g[v as int]);
    let mut k: usize = 0;
    while k < succ.len()
        invariant
            g == adj.deep_view(),
            c0 == old(colors)@,
            adj_wf(g),
            succ@ == g[v as int],
            v < adj@.len(),
            colors@.len() == adj@.len(),
            colors_ok(colors@),
            k <= succ@.len(),
            colors@[v as int] == GRAY,
            advanced(c0, colors@),
            advanced(c1, colors@),
            st.last() == v as int,
            stack_ok(g, colors@, st),
            forall|i: int|
                0 <= i < colors@.len() && c0[i] == BLACK ==> #[trigger] colors@[i] == BLACK,
            forall|j: int| 0 <= j < k ==> colors@[#[trigger] succ@[j] as int] == BLACK,
            black_closed(g, colors@),
            black_acyclic(g, colors@),
            white_count(colors@) < white_count(c0),
        decreases succ.len() - k,
    {
        let s = succ[k];
        assert(g[v as int][k as int] < g.len());
        assert(edge(g, v as int, s as int)) by {
            assert(g[v as int][k as int] as int == s as int);
        }
        let cs = colors[s];
        if cs == GRAY {
            proof {
                assert(st.contains(s as int));
                let j = choose|j: int| 0 <= j < st.len() && #[trigger] st[j] == s as int;
                let p = st.subrange(j, st.len() as int).push(s as int);
                assert(is_path(g, p)) by {
                    assert forall|i: int| 0 <= i < p.len() - 1 implies #[trigger] edge(
                        g,
                        p[i],
                        p[i + 1],
                    ) by {
                        if i < p.len() - 2 {
                            assert(p[i] == st[j + i]);
                            assert(p[i + 1] == st[j + i + 1]);
                            assert(edge(g, st[j + i], st[j + i + 1]));
                        } else {
                            assert(p[i] == st[st.len() - 1]);
                        }
                    }
                }
                assert(p[0] == s as int);
                assert(p.last() == s as int);
                assert(on_cycle(g, s as int));
                assert(s < adj@.len());
            }
            return Some(s);
        } else if cs == WHITE {
            let ghost cb = colors@;
            proof {
                lemma_white_count_mono(c0, cb);
            }
            let r = visit(adj, colors, s, Ghost(st));
            if r.is_some() {
                return r;
            }
            proof {
                assert forall|j: int| 0 <= j < k + 1 implies colors@[#[trigger] succ@[j] as int]
                    == BLACK by {
                    if j < k {
                        assert(cb[succ@[j] as int] == BLACK);
                    }
                }
                assert forall|i: int| 0 <= i < cb.len() && c1[i] != WHITE implies #[trigger] colors@[i]
                    != WHITE by {
                    assert(cb[i] != WHITE);
                }
                assert forall|i: int| 0 <= i < cb.len() && c0[i] != WHITE implies #[trigger] colors@[i]
                    != WHITE by {
                    assert(cb[i] != WHITE);
                }
                lemma_white_count_mono(cb, colors@);
            }
        } else {
            assert(colors@[s as int] == BLACK) by {
                assert(colors@[s as int] <= BLACK);
            }
        }
        k = k + 1;
    }
    let ghost c2 = colors@;
    colors.set(v, BLACK);
    proof {
        let c3 = colors@;
        assert forall|a: int, b: int|
            0 <= a < c3.len() && 0 <= b < c3.len() && c3[a] == BLACK && #[trigger] edge(
                g,
                a,
                b,
            ) implies c3[b] == BLACK by {
            if a == v {
                let j = choose|j: int| 0 <= j < g[a].len() && #[trigger] g[a][j] as int == b;
                assert(succ@[j] as int == b);
                assert(c2[succ@[j] as int] == BLACK);
            } else {
                assert(c2[a] == BLACK);
            }
        }
        assert forall|p: Seq<int>|
            #![trigger is_path(g, p)]
            is_path(g, p) && 0 <= p[0] < c3.len() && c3[p[0]] == BLACK implies p.last() != p[0] by {
            if p[0] == v {
                let q = p.drop_first();
                lemma_path_edge(g, p, 0);
                let j = choose|j: int| 0 <= j < g[v as int].len() && #[trigger] g[v as int][j] as int == p[1];
                assert(succ@[j] as int == p[1]);
                assert(g[v as int][j] < g.len());
                assert(c2[p[1]] == BLACK);
                if q.len() >= 2 {
                    assert forall|i: int| 0 <= i < q.len() - 1 implies #[trigger] edge(
                        g,
                        q[i],
                        q[i + 1],
                    ) by {
                        lemma_path_edge(g, p, i + 1);
                    }
                    lemma_path_stays_black(g, c2, q, q.len() - 1);
                    assert(q.last() == p.last());
                } else {
                    assert(p.last() == p[1]);
                }
            } else {
                assert(c2[p[0]] == BLACK);
            }
        }
        assert forall|i: int| 0 <= i < c3.len() implies (c0[i] == GRAY <==> #[trigger] c3[i]
            == GRAY) by {
            if i != v {
                assert(c1[i] == GRAY <==> st.contains(i));
                assert(c0[i] == GRAY <==> stack.contains(i));
                if st.contains(i) {
                    let j = choose|j: int| 0 <= j < st.len() && #[trigger] st[j] == i;
                    assert(j < stack.len());
                    assert(stack[j] == i);
                }
                if stack.contains(i) {
                    let j = choose|j: int| 0 <= j < stack.len() && #[trigger] stack[j] == i;
                    assert(st[j] == i);
                }
            }
        }
        assert(advanced(c0, c3));
    }
    None
}

/// Depth-first search from every node in index order, successors in list order.
/// `None` exactly when the graph has no cycle; otherwise the node at which a back edge was met,
/// which lies on a cycle.
pub fn find_cycle(adj: &Vec<Vec<usize>>) -> (r: Option<usize>)
    requires
        adj_wf(adj.deep_view()),
    ensures
        r is None <==> acyclic(adj.deep_view()),
        r matches Some(x) ==> x < adj@.len() && on_cycle(adj.deep_view(), x as int),
{
    let ghost g = adj.deep_view();
    let n = adj.len();
    let mut colors: Vec<u8> = Vec::new();
    let mut i: usize = 0;
    while i < n
        invariant
            n == adj@.len(),
            i <= n,
            colors@.len() == i,
            forall|j: int| 0 <= j < i ==> colors@[j] == WHITE,
        decreases n - i,
    {
        colors.push(WHITE);
        i = i + 1;
    }
    let mut r: usize = 0;
    while r < n
        invariant
            g == adj.deep_view(),
            adj_wf(g),
            n == adj@.len(),
            r <= n,
            colors@.len() == n,
            colors_ok(colors@),
            forall|j: int| 0 <= j < n ==> colors@[j] != GRAY,
            forall|j: int| 0 <= j < r ==> colors@[j] == BLACK,
            black_closed(g, colors@),
            black_acyclic(g, colors@),
        decreases n - r,
    {
        if colors[r] == WHITE {
            let res = visit(adj, &mut colors, r, Ghost(Seq::empty()));
            if res.is_some() {
                proof {
                    let x = res->0 as int;
                    let p = choose|p: Seq<int>| is_path(g, p) && p[0] == x && p.last() == x;
                    assert(!acyclic(g));
                }
                return res;
            }
        } else {
            assert(colors@[r as int] == BLACK) by {
                assert(colors@[r as int] <= BLACK);
            }
        }
        r = r + 1;
    }
    proof {
        assert forall|p: Seq<int>| is_path(g, p) implies p[0] != p.last() by {
            lemma_path_edge(g, p, 0);
            assert(0 <= p[0] < colors@.len());
            assert(colors@[p[0]] == BLACK);
        }
    }
    None
}


/// A dependency edge between two named nodes: `(from, to)`.
pub open spec fn name_edge(es: Seq<(Seq<char>, Seq<char>)>, a: Seq<char>, b: Seq<char>) -> bool {
    exists|k: int| 0 <= k < es.len() && #[trigger] es[k] == (a, b)
}

pub open spec fn is_name_path(es: Seq<(Seq<char>, Seq<char>)>, p: Seq<Seq<char>>) -> bool {
    p.len() >= 2 && forall|i: int|
        0 <= i < p.len() - 1 ==> #[trigger] name_edge(es, p[i], p[i + 1])
}

/// `x` can reach itself along named edges.
pub open spec fn name_on_cycle(es: Seq<(Seq<char>, Seq<char>)>, x: Seq<char>) -> bool {
    exists|p: Seq<Seq<char>>| is_name_path(es, p) && p[0] == x && p.last() == x
}

/// No named walk returns to its start.
pub open spec fn names_acyclic(es: Seq<(Seq<char>, Seq<char>)>) -> bool {
    forall|p: Seq<Seq<char>>| is_name_path(es, p) ==> p[0] != p.last()
}

pub open spec fn edges_view(es: Seq<(String, String)>) -> Seq<(Seq<char>, Seq<char>)> {
    es.map_values(|e: (String, String)| (e.0@, e.1@))
}

pub open spec fn distinct_names(ns: Seq<Seq<char>>) -> bool {
    forall|i: int, j: int| 0 <= i < ns.len() && 0 <= j < ns.len() && i != j ==> ns[i] != ns[j]
}

/// Every endpoint of every edge is one of the names.
pub open spec fn endpoints_named(ns: Seq<Seq<char>>, es: Seq<(Seq<char>, Seq<char>)>) -> bool {
    forall|k: int|
        0 <= k < es.len() ==> ns.contains((#[trigger] es[k]).0) && ns.contains(es[k].1)
}

/// The position of a name known to be present.
pub fn index_of(names: &Vec<String>, s: &str) -> (r: usize)
    requires
        names.deep_view().contains(s@),
    ensures
        r < names@.len(),
        names.deep_view()[r as int] == s@,
{
    let ghost ns = names.deep_view();
    let mut i: usize = 0;
    while i < names.len()
        invariant
            ns == names.deep_view(),
            ns.contains(s@),
            i <= names@.len(),
            forall|k: int| 0 <= k < i ==> ns[k] != s@,
        decreases names.len() - i,
    {
        if eq_str(names[i].as_str(), s) {
            return i;
        }
        i = i + 1;
    }
    proof {
        let k = choose|k: int| 0 <= k < ns.len() && ns[k] == s@;
        assert(ns[k] != s@);
    }
    0
}

/// Adds `s` to `names` unless present, placing it before the first name greater than it.
pub fn insert_name(names: &mut Vec<String>, s: &String)
    requires
        distinct_names(old(names).deep_view()),
    ensures
        distinct_names(final(names).deep_view()),
        forall|x: Seq<char>|
            final(names).deep_view().contains(x) <==> (old(names).deep_view().contains(x) || x
                == s@),
{
    let ghost ns0 = names.deep_view();
    let mut i: usize = 0;
    while i < names.len()
        invariant
            ns0 == names.deep_view(),
            ns0 == old(names).deep_view(),
            distinct_names(ns0),
            i <= names@.len(),
            forall|k: int| 0 <= k < i ==> ns0[k] != s@,
        decreases names.len() - i,
    {
        if eq_str(names[i].as_str(), s.as_str()) {
            assert(ns0[i as int] == s@);
            return;
        }
        i = i + 1;
    }
    let mut pos: usize = 0;
    while pos < names.len() && !less_str(s.as_str(), names[pos].as_str())
        invariant
            ns0 == names.deep_view(),
            pos <= names@.len(),
        decreases names.len() - pos,
    {
        pos = pos + 1;
    }
    names.insert(pos, s.clone());
    proof {
        let ns1 = names.deep_view();
        assert(ns1 =~= ns0.insert(pos as int, s@));
        assert forall|x: Seq<char>| ns1.contains(x) <==> (ns0.contains(x) || x == s@) by {
            if ns1.contains(x) {
                let k = choose|k: int| 0 <= k < ns1.len() && ns1[k] == x;
                if k < pos {
                    assert(ns0[k] == x);
                } else if k > pos {
                    assert(ns0[k - 1] == x);
                }
            }
            if ns0.contains(x) {
                let k = choose|k: int| 0 <= k < ns0.len() && ns0[k] == x;
                if k < pos {
                    assert(ns1[k] == x);
                } else {
                    assert(ns1[k + 1] == x);
                }
            }
            if x == s@ {
                assert(ns1[pos as int] == x);
            }
        }
        assert forall|a: int, b: int|
            0 <= a < ns1.len() && 0 <= b < ns1.len() && a != b implies ns1[a] != ns1[b] by {
            if a == pos {
                if b < pos {
                    assert(ns1[b] == ns0[b]);
                } else {
                    assert(ns1[b] == ns0[b - 1]);
                }
            } else if b == pos {
                if a < pos {
                    assert(ns1[a] == ns0[a]);
                } else {
                    assert(ns1[a] == ns0[a - 1]);
                }
            } else {
                let a0 = if a < pos {
                    a
                } else {
                    a - 1
                };
                let b0 = if b < pos {
                    b
                } else {
                    b - 1
                };
                assert(ns1[a] == ns0[a0]);
                assert(ns1[b] == ns0[b0]);
            }
        }
    }
}

/// The distinct endpoints of the edges, in the order of `String`.
pub fn sorted_endpoints(edges: &Vec<(String, String)>) -> (names: Vec<String>)
    ensures
        distinct_names(names.deep_view()),
        endpoints_named(names.deep_view(), edges_view(edges@)),
{
    let mut names: Vec<String> = Vec::new();
    let mut k: usize = 0;
    while k < edges.len()
        invariant
            k <= edges@.len(),
            distinct_names(names.deep_view()),
            endpoints_named(names.deep_view(), edges_view(edges@.subrange(0, k as int))),
        decreases edges.len() - k,
    {
        let ghost before = names.deep_view();
        insert_name(&mut names, &edges[k].0);
        insert_name(&mut names, &edges[k].1);
        proof {
            let es = edges_view(edges@.subrange(0, k + 1));
            let es0 = edges_view(edges@.subrange(0, k as int));
            assert forall|m: int| 0 <= m < es.len() implies names.deep_view().contains(
                (#[trigger] es[m]).0,
            ) && names.deep_view().contains(es[m].1) by {
                if m < k {
                    assert(es[m] == es0[m]);
                }
            }
        }
        k = k + 1;
    }
    assert(edges@.subrange(0, k as int) =~= edges@);
    names
}

proof fn lemma_index_path_to_names(
    g: Seq<Seq<usize>>,
    ns: Seq<Seq<char>>,
    es: Seq<(Seq<char>, Seq<char>)>,
    p: Seq<int>,
)
    requires
        g.len() == ns.len(),
        forall|i: int, j: int|
            0 <= i < ns.len() && 0 <= j < ns.len() ==> (edge(g, i, j) <==> name_edge(
                es,
                ns[i],
                ns[j],
            )),
        adj_wf(g),
        is_path(g, p),
        0 <= p[0] < g.len(),
    ensures
        is_name_path(es, p.map_values(|x: int| ns[x])),
{
    let q = p.map_values(|x: int| ns[x]);
    assert forall|i: int| 0 <= i < q.len() - 1 implies #[trigger] name_edge(es, q[i], q[i + 1]) by {
        lemma_path_in_range(g, p, i);
        lemma_path_in_range(g, p, i + 1);
        lemma_path_edge(g, p, i);
    }
}

proof fn lemma_path_in_range(g: Seq<Seq<usize>>, p: Seq<int>, i: int)
    requires
        adj_wf(g),
        is_path(g, p),
        0 <= p[0] < g.len(),
        0 <= i < p.len(),
    ensures
        0 <= p[i] < g.len(),
{
    if i > 0 {
        lemma_path_edge(g, p, i - 1);
        let k = choose|k: int| 0 <= k < g[p[i - 1]].len() && #[trigger] g[p[i - 1]][k] as int == p[i];
        assert(g[p[i - 1]][k] < g.len());
    }
}

/// Cycle search over named edges, with the roots taken in the order of `names`.
/// `None` exactly when no named walk returns to its start; otherwise the position of a name
/// that lies on a cycle.
pub fn cycle_among(names: &Vec<String>, edges: &Vec<(String, String)>) -> (r: Option<usize>)
    requires
        distinct_names(names.deep_view()),
        endpoints_named(names.deep_view(), edges_view(edges@)),
    ensures
        r is None <==> names_acyclic(edges_view(edges@)),
        r matches Some(x) ==> x < names@.len() && name_on_cycle(
            edges_view(edges@),
            names.deep_view()[x as int],
        ),
{
    let ghost ns = names.deep_view();
    let ghost es = edges_view(edges@);
    let n = names.len();
    let mut adj: Vec<Vec<usize>> = Vec::new();
    let mut i: usize = 0;
    while i < n
        invariant
            n == names@.len(),
            i <= n,
            adj@.len() == i,
            forall|j: int| 0 <= j < i ==> adj@[j]@.len() == 0,
        decreases n - i,
    {
        adj.push(Vec::new());
        i = i + 1;
    }
    let mut k: usize = 0;
    while k < edges.len()
        invariant
            ns == names.deep_view(),
            es == edges_view(edges@),
            distinct_names(ns),
            endpoints_named(ns, es),
            n == names@.len(),
            adj@.len() == n,
            k <= edges@.len(),
            adj_wf(adj.deep_view()),
            forall|a: int, b: int|
                0 <= a < n && 0 <= b < n ==> (#[trigger] edge(adj.deep_view(), a, b) <==> exists|
                    m: int,
                | 0 <= m < k && es[m] == (ns[a], ns[b])),
        decreases edges.len() - k,
    {
        assert(ns.contains(es[k as int].0) && ns.contains(es[k as int].1));
        let a = index_of(names, edges[k].0.as_str());
        let b = index_of(names, edges[k].1.as_str());
        let ghost g0 = adj.deep_view();
        let mut list = adj[a].clone();
        list.push(b);
        adj.set(a, list);
        proof {
            let g1 = adj.deep_view();
            assert(g1[a as int] == g0[a as int].push(b));
            assert forall|x: int| 0 <= x < n && x != a implies g1[x] == g0[x] by {
            }
            assert forall|x: int, kk: int|
                0 <= x < g1.len() && 0 <= kk < g1[x].len() implies (#[trigger] g1[x][kk]) < g1.len() by {
                if x == a && kk == g0[x].len() {
                } else {
                    assert(g1[x][kk] == g0[x][kk]);
                }
            }
            assert forall|x: int, y: int|
                0 <= x < n && 0 <= y < n implies (#[trigger] edge(g1, x, y) <==> exists|m: int|
                    0 <= m < k + 1 && es[m] == (ns[x], ns[y])) by {
                if edge(g1, x, y) {
                    let kk = choose|kk: int| 0 <= kk < g1[x].len() && #[trigger] g1[x][kk] as int == y;
                    if x == a && kk == g0[x].len() {
                        assert(es[k as int] == (ns[x], ns[y]));
                    } else {
                        assert(g0[x][kk] as int == y);
                        assert(edge(g0, x, y));
                    }
                }
                if exists|m: int| 0 <= m < k + 1 && es[m] == (ns[x], ns[y]) {
                    let m = choose|m: int| 0 <= m < k + 1 && es[m] == (ns[x], ns[y]);
                    if m == k {
                        assert(x == a);
                        assert(y == b);
                        assert(g1[x][g0[x].len() as int] as int == y);
                    } else {
                        assert(edge(g0, x, y));
                        let kk = choose|kk: int| 0 <= kk < g0[x].len() && #[trigger] g0[x][kk] as int == y;
                        assert(g1[x][kk] == g0[x][kk]);
                    }
                }
            }
        }
        k = k + 1;
    }
    let ghost g = adj.deep_view();
    let r = find_cycle(&adj);
    proof {
        assert forall|x: int, y: int|
            0 <= x < ns.len() && 0 <= y < ns.len() implies (edge(g, x, y) <==> name_edge(
                es,
                ns[x],
                ns[y],
            )) by {
            if name_edge(es, ns[x], ns[y]) {
                let m = choose|m: int| 0 <= m < es.len() && #[trigger] es[m] == (ns[x], ns[y]);
                assert(edge(g, x, y));
            }
            if edge(g, x, y) {
                let m = choose|m: int| 0 <= m < k && es[m] == (ns[x], ns[y]);
            }
        }
        if r is None {
            assert forall|p: Seq<Seq<char>>| is_name_path(es, p) implies p[0] != p.last() by {
                // map names to positions
                let q = p.map_values(|s: Seq<char>| choose|i: int| 0 <= i < ns.len() && ns[i] == s);
                assert forall|i: int| 0 <= i < p.len() implies 0 <= #[trigger] q[i] < ns.len()
                    && ns[q[i]] == p[i] by {
                    let j = if i < p.len() - 1 {
                        i
                    } else {
                        i - 1
                    };
                    assert(name_edge(es, p[j], p[j + 1]));
                    let m = choose|m: int| 0 <= m < es.len() && #[trigger] es[m] == (p[j], p[j + 1]);
                    assert(ns.contains(es[m].0) && ns.contains(es[m].1));
                }
                assert(is_path(g, q)) by {
                    assert forall|i: int| 0 <= i < q.len() - 1 implies #[trigger] edge(
                        g,
                        q[i],
                        q[i + 1],
                    ) by {
                        assert(0 <= q[i] < ns.len() && ns[q[i]] == p[i]);
                        assert(0 <= q[i + 1] < ns.len() && ns[q[i + 1]] == p[i + 1]);
                        assert(name_edge(es, p[i], p[i + 1]));
                    }
                }
                assert(q[0] != q.last());
                assert(0 <= q[0] < ns.len() && ns[q[0]] == p[0]);
                assert(0 <= q[q.len() - 1] < ns.len() && ns[q[q.len() - 1]] == p[p.len() - 1]);
            }
        } else {
            let x = r->0 as int;
            let p = choose|p: Seq<int>| is_path(g, p) && p[0] == x && p.last() == x;
            lemma_index_path_to_names(g, ns, es, p);
            let q = p.map_values(|y: int| ns[y]);
            assert(q[0] == ns[x]);
            assert(q.last() == ns[x]);
            assert(!names_acyclic(es));
        }
    }
    r
}

} // verus!
