//! Character-level helpers shared by the rest of the library: reading a
//! string as characters, building strings, and the lexicographic order of
//! strings by code point (the order in which `String`s sort).

use vstd::prelude::*;

verus! {

/// `a` sorts strictly before `b`, comparing code points from the left and
/// treating a proper prefix as smaller.
pub open spec fn seq_lt(a: Seq<char>, b: Seq<char>) -> bool
    decreases a.len(),
{
    if a.len() == 0 {
        b.len() > 0
    } else if b.len() == 0 {
        false
    } else if (a[0] as int) < (b[0] as int) {
        true
    } else if a[0] == b[0] {
        seq_lt(a.drop_first(), b.drop_first())
    } else {
        false
    }
}

pub proof fn lemma_seq_lt_irreflexive(a: Seq<char>)
    ensures
        !seq_lt(a, a),
    decreases a.len(),
{
    if a.len() > 0 {
        lemma_seq_lt_irreflexive(a.drop_first());
    }
}

pub proof fn lemma_seq_lt_transitive(a: Seq<char>, b: Seq<char>, c: Seq<char>)
    requires
        seq_lt(a, b),
        seq_lt(b, c),
    ensures
        seq_lt(a, c),
    decreases a.len(),
{
    if a.len() > 0 && b.len() > 0 && c.len() > 0 {
        if a[0] == b[0] && b[0] == c[0] {
            lemma_seq_lt_transitive(a.drop_first(), b.drop_first(), c.drop_first());
        }
    }
}

pub proof fn lemma_seq_lt_total(a: Seq<char>, b: Seq<char>)
    ensures
        a == b || seq_lt(a, b) || seq_lt(b, a),
    decreases a.len(),
{
    if a.len() > 0 && b.len() > 0 {
        if a[0] == b[0] {
            lemma_seq_lt_total(a.drop_first(), b.drop_first());
            if a.drop_first() == b.drop_first() {
                assert(a =~= seq![a[0]] + a.drop_first());
                assert(b =~= seq![b[0]] + b.drop_first());
            }
        } else {
            assert((a[0] as int) != (b[0] as int));
        }
    } else if a.len() == 0 && b.len() == 0 {
        assert(a =~= b);
    }
}

/// `b` begins with `a` and is longer.
pub open spec fn proper_prefix(a: Seq<char>, b: Seq<char>) -> bool {
    a.len() < b.len() && b.take(a.len() as int) == a
}

/// `a` and `b` agree before position `k`, and at `k` the code point of `a`
/// is the smaller.
pub open spec fn first_difference_below(a: Seq<char>, b: Seq<char>, k: int) -> bool {
    0 <= k < a.len() && k < b.len() && a.take(k) == b.take(k) && (a[k] as int) < (b[k] as int)
}

/// The string order is the lexicographic order on code points, whatever
/// the lengths: `a` sorts before `b` exactly when `a` is a proper prefix of
/// `b`, or at the first position where they differ `a` has the smaller
/// code point.
pub proof fn law_seq_lt_lexicographic(a: Seq<char>, b: Seq<char>)
    ensures
        seq_lt(a, b) <==> proper_prefix(a, b) || exists|k: int| #[trigger]
            first_difference_below(a, b, k),
    decreases a.len(),
{
    if a.len() == 0 {
        if b.len() > 0 {
            assert(b.take(0) =~= a);
        }
    } else if b.len() == 0 {
    } else {
        let a1 = a.drop_first();
        let b1 = b.drop_first();
        if (a[0] as int) < (b[0] as int) {
            assert(a.take(0) =~= b.take(0));
            assert(first_difference_below(a, b, 0));
        } else if a[0] == b[0] {
            law_seq_lt_lexicographic(a1, b1);
            if proper_prefix(a1, b1) {
                assert(b.take(a.len() as int) =~= seq![a[0]] + b1.take(a1.len() as int));
                assert(a =~= seq![a[0]] + a1);
            }
            if proper_prefix(a, b) {
                assert(b1.take(a1.len() as int) =~= b.take(a.len() as int).drop_first());
            }
            if exists|k: int| #[trigger] first_difference_below(a1, b1, k) {
                let k = choose|k: int| #[trigger] first_difference_below(a1, b1, k);
                assert(a.take(k + 1) =~= seq![a[0]] + a1.take(k));
                assert(b.take(k + 1) =~= seq![b[0]] + b1.take(k));
                assert(first_difference_below(a, b, k + 1));
            }
            if exists|k: int| #[trigger] first_difference_below(a, b, k) {
                let k = choose|k: int| #[trigger] first_difference_below(a, b, k);
                if k == 0 {
                } else {
                    assert(a1.take(k - 1) =~= a.take(k).drop_first());
                    assert(b1.take(k - 1) =~= b.take(k).drop_first());
                    assert(first_difference_below(a1, b1, k - 1));
                }
            }
        } else {
            if proper_prefix(a, b) {
                assert(b.take(a.len() as int)[0] == b[0]);
            }
            if exists|k: int| #[trigger] first_difference_below(a, b, k) {
                let k = choose|k: int| #[trigger] first_difference_below(a, b, k);
                if k > 0 {
                    assert(a.take(k)[0] == a[0]);
                    assert(b.take(k)[0] == b[0]);
                }
            }
        }
    }
}

/// Strings that start with different characters sort by those characters,
/// whatever follows.
pub proof fn law_seq_lt_first_char(c: char, d: char, a: Seq<char>, b: Seq<char>)
    requires
        (c as int) < (d as int),
    ensures
        seq_lt(seq![c] + a, seq![d] + b),
{
    let x = seq![c] + a;
    let y = seq![d] + b;
    assert(x.take(0) =~= y.take(0));
    assert(first_difference_below(x, y, 0));
    law_seq_lt_lexicographic(x, y);
}

/// A string sorts before every longer string that begins with it.
pub proof fn law_seq_lt_prefix(a: Seq<char>, b: Seq<char>)
    requires
        b.len() > 0,
    ensures
        seq_lt(a, a + b),
{
    assert((a + b).take(a.len() as int) =~= a);
    law_seq_lt_lexicographic(a, a + b);
}

/// The characters of `s`, in order.
pub fn chars_of(s: &str) -> (v: Vec<char>)
    ensures
        v@ == s@,
{
    let mut v: Vec<char> = Vec::new();
    for c in it: s.chars()
        invariant
            v@ == it.seq().take(it.index() as int),
            it.seq() == s@,
    {
        v.push(c);
    }
    v
}


/// Whether `a` sorts strictly before `b` (the order of `str` comparison).
pub fn chars_lt(a: &Vec<char>, b: &Vec<char>) -> (r: bool)
    ensures
        r == seq_lt(a@, b@),
{
    let mut i: usize = 0;
    assert(a@.skip(0) =~= a@ && b@.skip(0) =~= b@);
    while i < a.len() && i < b.len()
        invariant
            i <= a.len(),
            i <= b.len(),
            seq_lt(a@, b@) == seq_lt(a@.skip(i as int), b@.skip(i as int)),
        decreases a.len() - i,
    {
        let x = a[i];
        let y = b[i];
        assert(a@.skip(i as int)[0] == x && b@.skip(i as int)[0] == y);
        if x < y {
            assert((x as int) < (y as int));
            return true;
        } else if x != y {
            return false;
        }
        assert(a@.skip(i as int).drop_first() =~= a@.skip(i + 1));
        assert(b@.skip(i as int).drop_first() =~= b@.skip(i + 1));
        i = i + 1;
    }
    i < b.len()
}

/// Whether `a` sorts strictly before `b`.
pub fn str_lt(a: &str, b: &str) -> (r: bool)
    ensures
        r == seq_lt(a@, b@),
{
    let x = chars_of(a);
    let y = chars_of(b);
    chars_lt(&x, &y)
}

/// Appends `c` to `s`: `String::push`.
#[verifier::external_body]
pub(crate) fn push_char(s: &mut String, c: char)
    ensures
        final(s)@ == old(s)@.push(c),
{
    s.push(c);
}

/// The string made of the characters `v`, in order.
pub fn string_of(v: &Vec<char>) -> (s: String)
    ensures
        s@ == v@,
{
    let mut s = String::new();
    let mut i: usize = 0;
    while i < v.len()
        invariant
            i <= v.len(),
            s@ == v@.take(i as int),
        decreases v.len() - i,
    {
        push_char(&mut s, v[i]);
        assert(v@.take(i + 1) =~= v@.take(i as int).push(v@[i as int]));
        i = i + 1;
    }
    assert(v@.take(v.len() as int) =~= v@);
    s
}

/// Whether `p` occurs in `s` at position `i`.
pub fn matches_at(s: &Vec<char>, i: usize, p: &Vec<char>) -> (r: bool)
    requires
        i <= s@.len(),
    ensures
        r == (p@.len() <= s@.len() - i && s@.skip(i as int).take(p@.len() as int) == p@),
{
    if p.len() > s.len() - i {
        return false;
    }
    let mut j: usize = 0;
    while j < p.len()
        invariant
            i + p@.len() <= s@.len(),
            s@.len() == s.len(),
            j <= p@.len(),
            forall|k: int| 0 <= k < j ==> s@[i + k] == p@[k],
        decreases p.len() - j,
    {
        if s[i + j] != p[j] {
            assert(s@.skip(i as int).take(p@.len() as int)[j as int] != p@[j as int]);
            return false;
        }
        j = j + 1;
    }
    assert(s@.skip(i as int).take(p@.len() as int) =~= p@);
    true
}

} // verus!
