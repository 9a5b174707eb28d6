//! Sequences kept in the order of a text key with one entry per key, as an ordered map
//! keeps its entries.
use vstd::prelude::*;

use crate::text::seq_lt;

verus! {

/// The position of the first entry whose key is not before `k`.
pub open spec fn keyed_slot<T>(s: Seq<T>, key: spec_fn(T) -> Seq<char>, k: Seq<char>) -> int
    decreases s.len(),
{
    if s.len() == 0 {
        0
    } else if seq_lt(key(s[0]), k) {
        1 + keyed_slot(s.drop_first(), key, k)
    } else {
        0
    }
}

/// The entry of key `k`, looked for where it belongs.
pub open spec fn keyed_lookup<T>(s: Seq<T>, key: spec_fn(T) -> Seq<char>, k: Seq<char>) -> Option<T>
    decreases s.len(),
{
    if s.len() == 0 {
        None
    } else if seq_lt(key(s[0]), k) {
        keyed_lookup(s.drop_first(), key, k)
    } else if key(s[0]) == k {
        Some(s[0])
    } else {
        None
    }
}

/// The entries with `p` in place of the entry of its key, or added where its key belongs.
pub open spec fn keyed_upsert<T>(s: Seq<T>, key: spec_fn(T) -> Seq<char>, p: T) -> Seq<T>
    decreases s.len(),
{
    if s.len() == 0 {
        seq![p]
    } else if seq_lt(key(s[0]), key(p)) {
        seq![s[0]] + keyed_upsert(s.drop_first(), key, p)
    } else if key(s[0]) == key(p) {
        seq![p] + s.drop_first()
    } else {
        seq![p] + s
    }
}

/// The entries without the entry of key `k`.
pub open spec fn keyed_remove<T>(s: Seq<T>, key: spec_fn(T) -> Seq<char>, k: Seq<char>) -> Seq<T>
    decreases s.len(),
{
    if s.len() == 0 {
        s
    } else if seq_lt(key(s[0]), k) {
        seq![s[0]] + keyed_remove(s.drop_first(), key, k)
    } else if key(s[0]) == k {
        s.drop_first()
    } else {
        s
    }
}

/// Before the slot of a key all keys are smaller, at it none is; lookup and removal go by it.
pub proof fn lemma_keyed_slot<T>(s: Seq<T>, key: spec_fn(T) -> Seq<char>, k: Seq<char>)
    ensures
        0 <= keyed_slot(s, key, k) <= s.len(),
        forall|j: int| 0 <= j < keyed_slot(s, key, k) ==> seq_lt(key(#[trigger] s[j]), k),
        keyed_slot(s, key, k) < s.len() ==> !seq_lt(key(s[keyed_slot(s, key, k)]), k),
        keyed_lookup(s, key, k) == if keyed_slot(s, key, k) < s.len() && key(
            s[keyed_slot(s, key, k)],
        ) == k {
            Some(s[keyed_slot(s, key, k)])
        } else {
            None
        },
        keyed_remove(s, key, k) == if keyed_slot(s, key, k) < s.len() && key(
            s[keyed_slot(s, key, k)],
        ) == k {
            s.remove(keyed_slot(s, key, k))
        } else {
            s
        },
    decreases s.len(),
{
    if s.len() > 0 && seq_lt(key(s[0]), k) {
        let t = s.drop_first();
        lemma_keyed_slot(t, key, k);
        assert forall|j: int| 0 <= j < keyed_slot(s, key, k) implies seq_lt(key(#[trigger] s[j]), k) by {
            if j > 0 {
                assert(s[j] == t[j - 1]);
            }
        }
        let m = keyed_slot(t, key, k);
        if m < t.len() {
            assert(s[m + 1] == t[m]);
            if key(t[m]) == k {
                assert(seq![s[0]] + t.remove(m) =~= s.remove(m + 1));
            }
        }
    } else if s.len() > 0 && key(s[0]) == k {
        assert(s.drop_first() =~= s.remove(0));
    }
}

/// Putting an entry in its slot replaces the entry with its key or adds it there.
pub proof fn lemma_keyed_upsert<T>(s: Seq<T>, key: spec_fn(T) -> Seq<char>, p: T)
    ensures
        keyed_upsert(s, key, p) == if keyed_slot(s, key, key(p)) < s.len() && key(
            s[keyed_slot(s, key, key(p))],
        ) == key(p) {
            s.update(keyed_slot(s, key, key(p)), p)
        } else {
            s.insert(keyed_slot(s, key, key(p)), p)
        },
    decreases s.len(),
{
    if s.len() == 0 {
        assert(s.insert(0, p) =~= seq![p]);
    } else if seq_lt(key(s[0]), key(p)) {
        let t = s.drop_first();
        lemma_keyed_upsert(t, key, p);
        let m = keyed_slot(t, key, key(p));
        lemma_keyed_slot(t, key, key(p));
        if m < t.len() {
            assert(s[m + 1] == t[m]);
        }
        if m < t.len() && key(t[m]) == key(p) {
            assert(seq![s[0]] + t.update(m, p) =~= s.update(m + 1, p));
        } else {
            assert(seq![s[0]] + t.insert(m, p) =~= s.insert(m + 1, p));
        }
    } else if key(s[0]) == key(p) {
        assert(seq![p] + s.drop_first() =~= s.update(0, p));
    } else {
        assert(seq![p] + s =~= s.insert(0, p));
    }
}

/// Keys strictly increase along the sequence (so each key occurs once).
pub open spec fn keys_sorted<T>(s: Seq<T>, key: spec_fn(T) -> Seq<char>) -> bool {
    forall|i: int, j: int| 0 <= i < j < s.len() ==> seq_lt(key(#[trigger] s[i]), key(#[trigger] s[j]))
}

/// Putting an entry in its place keeps the keys sorted, and the entry is then found there.
pub proof fn lemma_upsert_sorted<T>(s: Seq<T>, key: spec_fn(T) -> Seq<char>, p: T)
    requires
        keys_sorted(s, key),
    ensures
        keys_sorted(keyed_upsert(s, key, p), key),
        keyed_lookup(keyed_upsert(s, key, p), key, key(p)) == Some(p),
{
    lemma_keyed_slot(s, key, key(p));
    lemma_keyed_upsert(s, key, p);
    let m = keyed_slot(s, key, key(p));
    let u = keyed_upsert(s, key, p);
    if m < s.len() && key(s[m]) == key(p) {
        assert forall|i: int, j: int| 0 <= i < j < u.len() implies seq_lt(
            key(#[trigger] u[i]),
            key(#[trigger] u[j]),
        ) by {
            assert(key(u[i]) == key(s[i]));
            assert(key(u[j]) == key(s[j]));
        }
    } else {
        if m < s.len() {
            crate::text::lemma_seq_lt_order(key(s[m]), key(p));
        }
        assert forall|i: int, j: int| 0 <= i < j < u.len() implies seq_lt(
            key(#[trigger] u[i]),
            key(#[trigger] u[j]),
        ) by {
            if j < m {
                assert(u[i] == s[i] && u[j] == s[j]);
            } else if j == m {
                assert(u[i] == s[i]);
            } else if i < m {
                assert(u[i] == s[i] && u[j] == s[j - 1]);
                crate::text::lemma_seq_lt_trans(key(s[i]), key(p), key(s[m]));
                if j - 1 > m {
                    crate::text::lemma_seq_lt_trans(key(s[i]), key(s[m]), key(s[j - 1]));
                }
            } else if i == m {
                assert(u[j] == s[j - 1]);
                if j - 1 > m {
                    crate::text::lemma_seq_lt_trans(key(p), key(s[m]), key(s[j - 1]));
                }
            } else {
                assert(u[i] == s[i - 1] && u[j] == s[j - 1]);
            }
        }
    }
    lemma_keyed_slot(u, key, key(p));
    let mu = keyed_slot(u, key, key(p));
    if mu < m {
        crate::text::lemma_seq_lt_order(key(u[mu]), key(p));
        assert(u[mu] == s[mu]);
    }
    if mu > m {
        assert(seq_lt(key(u[m]), key(p)));
        assert(u[m] == p);
        crate::text::lemma_seq_lt_order(key(p), key(p));
    }
}

/// Taking an entry out keeps the keys sorted.
pub proof fn lemma_remove_sorted<T>(s: Seq<T>, key: spec_fn(T) -> Seq<char>, k: Seq<char>)
    requires
        keys_sorted(s, key),
    ensures
        keys_sorted(keyed_remove(s, key, k), key),
{
    lemma_keyed_slot(s, key, k);
    let m = keyed_slot(s, key, k);
    let r = keyed_remove(s, key, k);
    if m < s.len() && key(s[m]) == k {
        assert forall|i: int, j: int| 0 <= i < j < r.len() implies seq_lt(
            key(#[trigger] r[i]),
            key(#[trigger] r[j]),
        ) by {
            let i0 = if i < m {
                i
            } else {
                i + 1
            };
            let j0 = if j < m {
                j
            } else {
                j + 1
            };
            assert(r[i] == s[i0] && r[j] == s[j0]);
        }
    }
}

/// Taking out any entry at a position keeps the keys sorted.
pub proof fn lemma_remove_at_sorted<T>(s: Seq<T>, key: spec_fn(T) -> Seq<char>, m: int)
    requires
        keys_sorted(s, key),
        0 <= m < s.len(),
    ensures
        keys_sorted(s.remove(m), key),
{
    let r = s.remove(m);
    assert forall|i: int, j: int| 0 <= i < j < r.len() implies seq_lt(
        key(#[trigger] r[i]),
        key(#[trigger] r[j]),
    ) by {
        let i0 = if i < m {
            i
        } else {
            i + 1
        };
        let j0 = if j < m {
            j
        } else {
            j + 1
        };
        assert(r[i] == s[i0] && r[j] == s[j0]);
    }
}

/// Keeping some of the entries keeps the keys sorted.
pub proof fn lemma_filter_sorted<T>(s: Seq<T>, key: spec_fn(T) -> Seq<char>, pred: spec_fn(T) -> bool)
    requires
        keys_sorted(s, key),
    ensures
        keys_sorted(s.filter(pred), key),
    decreases s.len(),
{
    reveal(Seq::filter);
    if s.len() > 0 {
        let t = s.drop_last();
        assert forall|i: int, j: int| 0 <= i < j < t.len() implies seq_lt(
            key(#[trigger] t[i]),
            key(#[trigger] t[j]),
        ) by {
            assert(t[i] == s[i] && t[j] == s[j]);
        }
        lemma_filter_sorted(t, key, pred);
        let f = t.filter(pred);
        if pred(s.last()) {
            let g = f.push(s.last());
            assert forall|i: int, j: int| 0 <= i < j < g.len() implies seq_lt(
                key(#[trigger] g[i]),
                key(#[trigger] g[j]),
            ) by {
                if j == f.len() {
                    assert(f.contains(f[i]));
                    t.lemma_filter_contains_rev(pred, f[i]);
                    let k = choose|k: int| 0 <= k < t.len() && t[k] == f[i];
                    assert(s[k] == t[k]);
                    assert(g[i] == f[i]);
                    assert(g[j] == s[s.len() - 1]);
                    assert(seq_lt(key(s[k]), key(s[s.len() - 1])));
                } else {
                    assert(g[i] == f[i] && g[j] == f[j]);
                }
            }
        }
    }
}

/// Some entry has key `k`.
pub open spec fn holds_key<T>(s: Seq<T>, key: spec_fn(T) -> Seq<char>, k: Seq<char>) -> bool {
    exists|i: int| 0 <= i < s.len() && key(#[trigger] s[i]) == k
}

/// No two entries share a key.
pub open spec fn keys_distinct<T>(s: Seq<T>, key: spec_fn(T) -> Seq<char>) -> bool {
    forall|i: int, j: int| 0 <= i < j < s.len() ==> key(#[trigger] s[i]) != key(#[trigger] s[j])
}

pub proof fn lemma_sorted_distinct<T>(s: Seq<T>, key: spec_fn(T) -> Seq<char>)
    requires
        keys_sorted(s, key),
    ensures
        keys_distinct(s, key),
{
    assert forall|i: int, j: int| 0 <= i < j < s.len() implies key(#[trigger] s[i]) != key(
        #[trigger] s[j],
    ) by {
        crate::text::lemma_seq_lt_order(key(s[i]), key(s[j]));
    }
}

/// Putting an entry in its place adds its key and keeps the others.
pub proof fn lemma_upsert_keys<T>(s: Seq<T>, key: spec_fn(T) -> Seq<char>, p: T, k: Seq<char>)
    ensures
        holds_key(keyed_upsert(s, key, p), key, k) <==> (holds_key(s, key, k) || k == key(p)),
{
    lemma_keyed_slot(s, key, key(p));
    lemma_keyed_upsert(s, key, p);
    let m = keyed_slot(s, key, key(p));
    let u = keyed_upsert(s, key, p);
    if m < s.len() && key(s[m]) == key(p) {
        if holds_key(s, key, k) {
            let i = choose|i: int| 0 <= i < s.len() && key(#[trigger] s[i]) == k;
            assert(key(u[i]) == k);
        }
        if k == key(p) {
            assert(key(u[m]) == k);
        }
        if holds_key(u, key, k) {
            let i = choose|i: int| 0 <= i < u.len() && key(#[trigger] u[i]) == k;
            if i != m {
                assert(key(s[i]) == k);
            }
        }
    } else {
        if holds_key(s, key, k) {
            let i = choose|i: int| 0 <= i < s.len() && key(#[trigger] s[i]) == k;
            if i < m {
                assert(key(u[i]) == k);
            } else {
                assert(key(u[i + 1]) == k);
            }
        }
        if k == key(p) {
            assert(key(u[m]) == k);
        }
        if holds_key(u, key, k) {
            let i = choose|i: int| 0 <= i < u.len() && key(#[trigger] u[i]) == k;
            if i < m {
                assert(key(s[i]) == k);
            } else if i > m {
                assert(key(s[i - 1]) == k);
            }
        }
    }
}

/// Taking out the entry at `m` drops its key and keeps the others, when keys are distinct.
pub proof fn lemma_remove_at_keys<T>(s: Seq<T>, key: spec_fn(T) -> Seq<char>, m: int, k: Seq<char>)
    requires
        keys_distinct(s, key),
        0 <= m < s.len(),
    ensures
        holds_key(s.remove(m), key, k) <==> (holds_key(s, key, k) && k != key(s[m])),
{
    let r = s.remove(m);
    if holds_key(s, key, k) && k != key(s[m]) {
        let i = choose|i: int| 0 <= i < s.len() && key(#[trigger] s[i]) == k;
        if i < m {
            assert(key(r[i]) == k);
        } else {
            assert(i != m);
            assert(key(r[i - 1]) == k);
        }
    }
    if holds_key(r, key, k) {
        let i = choose|i: int| 0 <= i < r.len() && key(#[trigger] r[i]) == k;
        if i < m {
            assert(key(s[i]) == k);
            assert(key(s[i]) != key(s[m]));
        } else {
            assert(key(s[i + 1]) == k);
            assert(key(s[m]) != key(s[i + 1]));
        }
    }
}

/// Taking out the entry of a key drops that key and keeps the others, when keys are sorted.
pub proof fn lemma_remove_keys<T>(s: Seq<T>, key: spec_fn(T) -> Seq<char>, k0: Seq<char>, k: Seq<char>)
    requires
        keys_sorted(s, key),
    ensures
        holds_key(keyed_remove(s, key, k0), key, k) <==> (holds_key(s, key, k) && k != k0),
{
    lemma_keyed_slot(s, key, k0);
    lemma_sorted_distinct(s, key);
    let m = keyed_slot(s, key, k0);
    if m < s.len() && key(s[m]) == k0 {
        lemma_remove_at_keys(s, key, m, k);
    } else if holds_key(s, key, k0) {
        let i = choose|i: int| 0 <= i < s.len() && key(#[trigger] s[i]) == k0;
        if i < m {
            crate::text::lemma_seq_lt_order(key(s[i]), k0);
        } else if m < s.len() {
            if i > m {
                crate::text::lemma_seq_lt_order(key(s[m]), k0);
                crate::text::lemma_seq_lt_order(key(s[m]), key(s[i]));
            }
        }
    }
}

/// The keys of a filtered sequence are those of the entries that pass.
pub proof fn lemma_filter_keys<T>(s: Seq<T>, key: spec_fn(T) -> Seq<char>, pred: spec_fn(T) -> bool, k: Seq<char>)
    ensures
        holds_key(s.filter(pred), key, k) <==> exists|i: int|
            0 <= i < s.len() && key(#[trigger] s[i]) == k && pred(s[i]),
{
    let f = s.filter(pred);
    if holds_key(f, key, k) {
        let i = choose|i: int| 0 <= i < f.len() && key(#[trigger] f[i]) == k;
        assert(f.contains(f[i]));
        s.lemma_filter_contains_rev(pred, f[i]);
        s.lemma_filter_pred(pred, i);
        let j = choose|j: int| 0 <= j < s.len() && s[j] == f[i];
        assert(key(s[j]) == k && pred(s[j]));
    }
    if exists|i: int| 0 <= i < s.len() && key(#[trigger] s[i]) == k && pred(s[i]) {
        let i = choose|i: int| 0 <= i < s.len() && key(#[trigger] s[i]) == k && pred(s[i]);
        s.lemma_filter_contains(pred, i);
        let j = choose|j: int| 0 <= j < f.len() && f[j] == s[i];
        assert(key(f[j]) == k);
    }
}

} // verus!
