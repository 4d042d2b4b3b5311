//! Lists of `(key, value)` pairs keyed by strings, read as maps. The
//! library keeps its tables this way: each key occurs once, and the table
//! means the map from each key to its value.

use vstd::prelude::*;

verus! {

/// No key occurs twice in `s`.
pub open spec fn unique_keys<V>(s: Seq<(String, V)>) -> bool {
    forall|i: int, j: int| 0 <= i < j < s.len() ==> s[i].0@ != s[j].0@
}

/// The map from each key of `s` to its value, read through `f`; where a
/// key occurs twice, the later pair wins.
pub open spec fn keyed_map<V, W>(s: Seq<(String, V)>, f: spec_fn(V) -> W) -> Map<Seq<char>, W>
    decreases s.len(),
{
    if s.len() == 0 {
        Map::empty()
    } else {
        keyed_map(s.drop_last(), f).insert(s.last().0@, f(s.last().1))
    }
}

pub proof fn lemma_keyed_map<V, W>(s: Seq<(String, V)>, f: spec_fn(V) -> W)
    requires
        unique_keys(s),
    ensures
        forall|k: Seq<char>| #[trigger]
            keyed_map(s, f).dom().contains(k) <==> exists|i: int|
                0 <= i < s.len() && s[i].0@ == k,
        forall|i: int| 0 <= i < s.len() ==> #[trigger] keyed_map(s, f)[s[i].0@] == f(s[i].1),
    decreases s.len(),
{
    if s.len() > 0 {
        let t = s.drop_last();
        lemma_keyed_map(t, f);
        let n = s.len() - 1;
        assert forall|k: Seq<char>| #[trigger]
            keyed_map(s, f).dom().contains(k) implies exists|i: int|
                0 <= i < s.len() && s[i].0@ == k by {
            if k == s[n].0@ {
                assert(s[n].0@ == k);
            } else {
                assert(keyed_map(t, f).dom().contains(k));
                let i = choose|i: int| 0 <= i < t.len() && t[i].0@ == k;
                assert(s[i] == t[i]);
            }
        }
        assert forall|k: Seq<char>|
            (exists|i: int| 0 <= i < s.len() && s[i].0@ == k) implies #[trigger]
            keyed_map(s, f).dom().contains(k) by {
            let i = choose|i: int| 0 <= i < s.len() && s[i].0@ == k;
            if i < n {
                assert(t[i] == s[i]);
                assert(keyed_map(t, f).dom().contains(t[i].0@));
            }
        }
        assert forall|i: int| 0 <= i < s.len() implies #[trigger] keyed_map(s, f)[s[i].0@] == f(
            s[i].1,
        ) by {
            if i < n {
                assert(t[i] == s[i]);
                assert(s[i].0@ != s[n].0@);
                assert(keyed_map(t, f)[t[i].0@] == f(t[i].1));
            }
        }
    }
}

/// Two lists with the same keys and the same values read through `f`, pair
/// by pair, give the same map.
pub proof fn lemma_keyed_congruent<V, W>(
    s: Seq<(String, V)>,
    u: Seq<(String, V)>,
    f: spec_fn(V) -> W,
)
    requires
        s.len() == u.len(),
        forall|i: int| 0 <= i < s.len() ==> #[trigger] s[i].0@ == u[i].0@ && f(s[i].1) == f(u[i].1),
    ensures
        keyed_map(s, f) == keyed_map(u, f),
    decreases s.len(),
{
    if s.len() > 0 {
        let a = s.drop_last();
        let b = u.drop_last();
        assert forall|i: int| 0 <= i < a.len() implies #[trigger] a[i].0@ == b[i].0@ && f(a[i].1) == f(
            b[i].1,
        ) by {
            assert(a[i] == s[i] && b[i] == u[i]);
        }
        lemma_keyed_congruent(a, b, f);
        assert(s[s.len() - 1].0@ == u[u.len() - 1].0@);
    }
}

/// A list with each key once has as many pairs as its map has keys.
pub proof fn lemma_keyed_len<V, W>(s: Seq<(String, V)>, f: spec_fn(V) -> W)
    requires
        unique_keys(s),
    ensures
        keyed_map(s, f).dom().finite(),
        keyed_map(s, f).dom().len() == s.len(),
    decreases s.len(),
{
    if s.len() > 0 {
        let t = s.drop_last();
        lemma_keyed_len(t, f);
        lemma_keyed_map(t, f);
        let k = s.last().0@;
        if keyed_map(t, f).dom().contains(k) {
            let i = choose|i: int| 0 <= i < t.len() && t[i].0@ == k;
            assert(s[i].0@ == s[s.len() - 1].0@);
        }
        assert(keyed_map(s, f).dom() =~= keyed_map(t, f).dom().insert(k));
    }
}

/// Replacing the pair at `i` by one with the same key replaces that key's value.
pub proof fn lemma_keyed_update<V, W>(s: Seq<(String, V)>, i: int, x: (String, V), f: spec_fn(V) -> W)
    requires
        unique_keys(s),
        0 <= i < s.len(),
        s[i].0@ == x.0@,
    ensures
        unique_keys(s.update(i, x)),
        keyed_map(s.update(i, x), f) == keyed_map(s, f).insert(x.0@, f(x.1)),
{
    let u = s.update(i, x);
    assert forall|a: int, b: int| 0 <= a < b < u.len() implies u[a].0@ != u[b].0@ by {
        assert(u[a].0@ == s[a].0@ && u[b].0@ == s[b].0@);
    }
    lemma_keyed_map(s, f);
    lemma_keyed_map(u, f);
    let m = keyed_map(s, f).insert(x.0@, f(x.1));
    assert forall|k: Seq<char>| keyed_map(u, f).dom().contains(k) <==> m.dom().contains(k) by {
        if keyed_map(u, f).dom().contains(k) {
            let j = choose|j: int| 0 <= j < u.len() && u[j].0@ == k;
            assert(s[j].0@ == k);
            assert(keyed_map(s, f).dom().contains(k));
        }
        if m.dom().contains(k) {
            if k == x.0@ {
                assert(u[i].0@ == k);
            } else {
                assert(keyed_map(s, f).dom().contains(k));
                let j = choose|j: int| 0 <= j < s.len() && s[j].0@ == k;
                assert(u[j].0@ == k);
            }
            assert(keyed_map(u, f).dom().contains(k));
        }
    }
    assert forall|k: Seq<char>| #[trigger] keyed_map(u, f).dom().contains(k) implies keyed_map(u, f)[k]
        == m[k] by {
        let j = choose|j: int| 0 <= j < u.len() && u[j].0@ == k;
        assert(keyed_map(u, f)[u[j].0@] == f(u[j].1));
        if j != i {
            assert(keyed_map(s, f)[s[j].0@] == f(s[j].1));
        }
    }
    assert(keyed_map(u, f) =~= m);
}

/// Inserting a pair with a new key anywhere adds that key.
pub proof fn lemma_keyed_insert<V, W>(s: Seq<(String, V)>, p: int, x: (String, V), f: spec_fn(V) -> W)
    requires
        unique_keys(s),
        0 <= p <= s.len(),
        forall|j: int| 0 <= j < s.len() ==> s[j].0@ != x.0@,
    ensures
        unique_keys(s.insert(p, x)),
        keyed_map(s.insert(p, x), f) == keyed_map(s, f).insert(x.0@, f(x.1)),
{
    let u = s.insert(p, x);
    assert forall|a: int, b: int| 0 <= a < b < u.len() implies u[a].0@ != u[b].0@ by {
        if a < p {
            if b < p {
            } else if b > p {
                assert(u[b] == s[b - 1]);
            }
        } else if a > p {
            assert(u[a] == s[a - 1] && u[b] == s[b - 1]);
        } else {
            assert(u[b] == s[b - 1]);
        }
    }
    lemma_keyed_map(s, f);
    lemma_keyed_map(u, f);
    let m = keyed_map(s, f).insert(x.0@, f(x.1));
    assert forall|k: Seq<char>| keyed_map(u, f).dom().contains(k) <==> m.dom().contains(k) by {
        if keyed_map(u, f).dom().contains(k) {
            let j = choose|j: int| 0 <= j < u.len() && u[j].0@ == k;
            if j < p {
                assert(s[j].0@ == k);
                assert(keyed_map(s, f).dom().contains(k));
            } else if j > p {
                assert(s[j - 1].0@ == k);
                assert(keyed_map(s, f).dom().contains(k));
            }
        }
        if m.dom().contains(k) {
            if k == x.0@ {
                assert(u[p].0@ == k);
            } else {
                assert(keyed_map(s, f).dom().contains(k));
                let j = choose|j: int| 0 <= j < s.len() && s[j].0@ == k;
                if j < p {
                    assert(u[j].0@ == k);
                } else {
                    assert(u[j + 1].0@ == k);
                }
            }
        }
    }
    assert forall|k: Seq<char>| #[trigger] keyed_map(u, f).dom().contains(k) implies keyed_map(u, f)[k]
        == m[k] by {
        let j = choose|j: int| 0 <= j < u.len() && u[j].0@ == k;
        assert(keyed_map(u, f)[u[j].0@] == f(u[j].1));
        if j < p {
            assert(u[j] == s[j]);
            assert(keyed_map(s, f)[s[j].0@] == f(s[j].1));
        } else if j > p {
            assert(u[j] == s[j - 1]);
            assert(keyed_map(s, f)[s[j - 1].0@] == f(s[j - 1].1));
        }
    }
    assert(keyed_map(u, f) =~= m);
}


/// The keys of `s` strictly increase in string order.
pub open spec fn sorted_keys<V>(s: Seq<(String, V)>) -> bool {
    forall|i: int, j: int| 0 <= i < j < s.len() ==> crate::text::seq_lt(s[i].0@, s[j].0@)
}

pub proof fn lemma_sorted_unique<V>(s: Seq<(String, V)>)
    requires
        sorted_keys(s),
    ensures
        unique_keys(s),
{
    assert forall|i: int, j: int| 0 <= i < j < s.len() implies s[i].0@ != s[j].0@ by {
        crate::text::lemma_seq_lt_irreflexive(s[i].0@);
    }
}


/// A pair placed between the keys below and above it keeps the keys sorted.
pub proof fn lemma_sorted_insert<V>(s: Seq<(String, V)>, p: int, x: (String, V))
    requires
        sorted_keys(s),
        0 <= p <= s.len(),
        forall|j: int| 0 <= j < p ==> crate::text::seq_lt(#[trigger] s[j].0@, x.0@),
        forall|j: int| p <= j < s.len() ==> crate::text::seq_lt(x.0@, #[trigger] s[j].0@),
    ensures
        sorted_keys(s.insert(p, x)),
        forall|j: int| 0 <= j < s.len() ==> s[j].0@ != x.0@,
{
    let u = s.insert(p, x);
    assert forall|a: int, b: int| 0 <= a < b < u.len() implies crate::text::seq_lt(
        u[a].0@,
        u[b].0@,
    ) by {
        if a < p {
            if b > p {
                assert(u[b] == s[b - 1]);
            }
        } else if a > p {
            assert(u[a] == s[a - 1] && u[b] == s[b - 1]);
        } else {
            assert(u[b] == s[b - 1]);
        }
    }
    assert forall|j: int| 0 <= j < s.len() implies s[j].0@ != x.0@ by {
        crate::text::lemma_seq_lt_irreflexive(x.0@);
    }
}

/// Replacing a pair by one with the same key keeps the keys sorted.
pub proof fn lemma_sorted_update<V>(s: Seq<(String, V)>, i: int, x: (String, V))
    requires
        sorted_keys(s),
        0 <= i < s.len(),
        s[i].0@ == x.0@,
    ensures
        sorted_keys(s.update(i, x)),
{
    let u = s.update(i, x);
    assert forall|a: int, b: int| 0 <= a < b < u.len() implies crate::text::seq_lt(
        u[a].0@,
        u[b].0@,
    ) by {
        assert(u[a].0@ == s[a].0@ && u[b].0@ == s[b].0@);
    }
}

} // verus!
