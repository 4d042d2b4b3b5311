//! Reading the IPv4 addresses that a hostname lookup page lists.
//!
//! The page names the addresses after its answer marker, each written as
//! `<em>` + a dotted quad + `</em>`.

use vstd::prelude::*;

use crate::text::{chars_of, matches_at, string_of};

verus! {

/// The text after which the page lists its answer.
pub const ANSWER_MARKER: &'static str = "@type\":\"Answer\",\"text\":\"The hostname resolves to";

pub open spec fn is_digit(c: char) -> bool {
    '0' <= c && c <= '9'
}

/// The pieces of `s` between the separators `sep` (`n` separators give
/// `n + 1` pieces).
pub open spec fn split_on(s: Seq<char>, sep: char) -> Seq<Seq<char>>
    decreases s.len(),
{
    if s.len() == 0 {
        seq![Seq::empty()]
    } else {
        let p = split_on(s.drop_last(), sep);
        if s.last() == sep {
            p.push(Seq::empty())
        } else {
            p.update(p.len() - 1, p.last().push(s.last()))
        }
    }
}

/// The number written by the decimal digits `s`.
pub open spec fn decimal(s: Seq<char>) -> nat
    decreases s.len(),
{
    if s.len() == 0 {
        0
    } else {
        decimal(s.drop_last()) * 10 + ((s.last() as int - '0' as int) as nat)
    }
}

/// One to three decimal digits writing a number of at most 255.
pub open spec fn is_octet(p: Seq<char>) -> bool {
    &&& 1 <= p.len() <= 3
    &&& forall|i: int| 0 <= i < p.len() ==> is_digit(#[trigger] p[i])
    &&& decimal(p) <= 255
}

/// Four octets joined by dots.
pub open spec fn is_ipv4(s: Seq<char>) -> bool {
    &&& split_on(s, '.').len() == 4
    &&& forall|i: int| 0 <= i < 4 ==> is_octet(#[trigger] split_on(s, '.')[i])
}

/// The number of digits and dots at the start of `s`.
pub open spec fn digit_run(s: Seq<char>) -> nat
    decreases s.len(),
{
    if s.len() > 0 && (is_digit(s[0]) || s[0] == '.') {
        1 + digit_run(s.drop_first())
    } else {
        0
    }
}

pub open spec fn em_open() -> Seq<char> {
    seq!['<', 'e', 'm', '>']
}

pub open spec fn em_close() -> Seq<char> {
    seq!['<', '/', 'e', 'm', '>']
}

/// Whether `s` starts with `<em>` + an IPv4 address + `</em>`: the length
/// of that text and the address.
pub open spec fn em_at(s: Seq<char>) -> Option<(nat, Seq<char>)> {
    if s.len() >= 4 && s.take(4) == em_open() {
        let body = s.skip(4);
        let n = digit_run(body);
        let x = body.take(n as int);
        let after = body.skip(n as int);
        if after.len() >= 5 && after.take(5) == em_close() && is_ipv4(x) {
            Some((n + 9, x))
        } else {
            None
        }
    } else {
        None
    }
}

/// The addresses of `s`, scanning from the left: where an `<em>` address
/// `</em>` starts, its address is taken and the scan goes on after it.
pub open spec fn em_records(s: Seq<char>) -> Seq<Seq<char>>
    decreases s.len(),
{
    if s.len() == 0 {
        seq![]
    } else {
        match em_at(s) {
            Some((n, x)) => if n <= s.len() {
                seq![x] + em_records(s.skip(n as int))
            } else {
                seq![]
            },
            None => em_records(s.drop_first()),
        }
    }
}

/// The first occurrence of each item of `s`, in order.
pub open spec fn first_occurrences(s: Seq<Seq<char>>) -> Seq<Seq<char>>
    decreases s.len(),
{
    if s.len() == 0 {
        seq![]
    } else {
        let d = first_occurrences(s.drop_last());
        if d.contains(s.last()) {
            d
        } else {
            d.push(s.last())
        }
    }
}

/// `p` occurs in `s` at `i`.
pub open spec fn occurs_at(s: Seq<char>, p: Seq<char>, i: int) -> bool {
    0 <= i && i + p.len() <= s.len() && s.subrange(i, i + p.len()) == p
}

/// Why a page gives no addresses.
#[derive(Debug, Clone, PartialEq, Eq)]
pub enum PageError {
    /// The page does not hold the answer marker.
    MarkerMissing,
}


/// The addresses a page lists are each given once, and they are exactly
/// the addresses that occur in it.
pub proof fn law_first_occurrences(s: Seq<Seq<char>>)
    ensures
        first_occurrences(s).no_duplicates(),
        forall|x: Seq<char>| first_occurrences(s).contains(x) <==> s.contains(x),
    decreases s.len(),
{
    if s.len() > 0 {
        let t = s.drop_last();
        law_first_occurrences(t);
        let d = first_occurrences(t);
        assert forall|x: Seq<char>| first_occurrences(s).contains(x) <==> s.contains(x) by {
            if t.contains(x) {
                let j = choose|j: int| 0 <= j < t.len() && t[j] == x;
                assert(s[j] == x);
            }
            if s.contains(x) && x != s.last() {
                let j = choose|j: int| 0 <= j < s.len() && s[j] == x;
                assert(j < t.len() && t[j] == x);
            }
            if x == s.last() {
                assert(s[s.len() - 1] == x);
            }
            if !d.contains(s.last()) {
                let e = d.push(s.last());
                if e.contains(x) {
                    let j = choose|j: int| 0 <= j < e.len() && e[j] == x;
                    if j < d.len() {
                        assert(d[j] == x);
                    }
                }
                if d.contains(x) {
                    let j = choose|j: int| 0 <= j < d.len() && d[j] == x;
                    assert(e[j] == x);
                }
                if x == s.last() {
                    assert(e[d.len() as int] == x);
                }
            }
        }
    }
}

/// Every address read from a page is an IPv4 address.
pub proof fn law_records_are_ipv4(s: Seq<char>)
    ensures
        forall|i: int| 0 <= i < em_records(s).len() ==> is_ipv4(#[trigger] em_records(s)[i]),
    decreases s.len(),
{
    if s.len() > 0 {
        match em_at(s) {
            Some((n, x)) => {
                if n <= s.len() {
                    law_records_are_ipv4(s.skip(n as int));
                    let r = em_records(s.skip(n as int));
                    assert forall|i: int| 0 <= i < em_records(s).len() implies is_ipv4(
                        #[trigger] em_records(s)[i],
                    ) by {
                        if i > 0 {
                            assert(em_records(s)[i] == r[i - 1]);
                        } else {
                            assert(em_records(s)[0] == x);
                        }
                    }
                }
            },
            None => {
                law_records_are_ipv4(s.drop_first());
                assert(em_records(s) == em_records(s.drop_first()));
            },
        }
    }
}

/// An octet is exactly one to three decimal digits whose number is at most
/// 255, with no further condition.
pub proof fn law_octet(p: Seq<char>)
    ensures
        is_octet(p) <==> (1 <= p.len() <= 3 && (forall|i: int|
            0 <= i < p.len() ==> 48 <= (#[trigger] p[i] as int) <= 57) && decimal(p) <= 255),
{
}

/// Digits read left to right: the number of three digits is a hundred
/// times the first, plus ten times the second, plus the third.
pub proof fn law_decimal_three(a: char, b: char, c: char)
    requires
        is_digit(a),
        is_digit(b),
        is_digit(c),
    ensures
        decimal(seq![a, b, c]) == ((a as int - 48) * 100 + (b as int - 48) * 10 + (c as int
            - 48)) as nat,
{
    let s = seq![a, b, c];
    assert(s.drop_last() =~= seq![a, b]);
    assert(seq![a, b].drop_last() =~= seq![a]);
    assert(seq![a].drop_last() =~= Seq::<char>::empty());
    assert('0' as int == 48);
    assert(seq![a].last() == a && seq![a, b].last() == b && s.last() == c);
    assert(decimal(Seq::<char>::empty()) == 0);
    assert(decimal(seq![a]) == (a as int - 48));
    assert(decimal(seq![a, b]) == (a as int - 48) * 10 + (b as int - 48));
}

proof fn lemma_split_nonempty(s: Seq<char>, sep: char)
    ensures
        split_on(s, sep).len() >= 1,
    decreases s.len(),
{
    if s.len() > 0 {
        lemma_split_nonempty(s.drop_last(), sep);
    }
}

proof fn lemma_split_no_sep(s: Seq<char>, sep: char)
    requires
        !s.contains(sep),
    ensures
        split_on(s, sep) == seq![s],
    decreases s.len(),
{
    if s.len() > 0 {
        let t = s.drop_last();
        if t.contains(sep) {
            let j = choose|j: int| 0 <= j < t.len() && t[j] == sep;
            assert(s[j] == sep);
        }
        lemma_split_no_sep(t, sep);
        assert(s[s.len() - 1] == s.last());
        assert(s.last() != sep);
        assert(t.push(s.last()) =~= s);
        let p = split_on(t, sep);
        assert(p.len() == 1 && p.last() == t);
        assert(p.update(0, t.push(s.last())) =~= seq![s]);
    } else {
        assert(s =~= Seq::<char>::empty());
    }
}

proof fn lemma_split_concat(x: Seq<char>, y: Seq<char>, sep: char)
    ensures
        split_on(x + seq![sep] + y, sep) == split_on(x, sep) + split_on(y, sep),
    decreases y.len(),
{
    let xs = x + seq![sep];
    if y.len() == 0 {
        assert(xs + y =~= xs);
        assert(xs.drop_last() =~= x);
        assert(split_on(x, sep).push(Seq::empty()) =~= split_on(x, sep) + seq![Seq::<char>::empty()]);
    } else {
        let y1 = y.drop_last();
        lemma_split_concat(x, y1, sep);
        lemma_split_nonempty(y1, sep);
        lemma_split_nonempty(x, sep);
        assert((xs + y).drop_last() =~= xs + y1);
        assert((xs + y).last() == y.last());
        let a = split_on(x, sep);
        let b = split_on(y1, sep);
        if y.last() == sep {
            assert((a + b).push(Seq::empty()) =~= a + b.push(Seq::empty()));
        } else {
            assert((a + b).last() == b.last());
            assert((a + b).update((a + b).len() - 1, b.last().push(y.last())) =~= a + b.update(
                b.len() - 1,
                b.last().push(y.last()),
            ));
        }
    }
}

/// Four dot-free pieces joined by dots form an IPv4 address exactly when
/// each piece is an octet.
pub proof fn law_dotted_quad(a: Seq<char>, b: Seq<char>, c: Seq<char>, d: Seq<char>)
    requires
        !a.contains('.'),
        !b.contains('.'),
        !c.contains('.'),
        !d.contains('.'),
    ensures
        is_ipv4(a + seq!['.'] + b + seq!['.'] + c + seq!['.'] + d) <==> is_octet(a) && is_octet(b)
            && is_octet(c) && is_octet(d),
{
    let cd = c + seq!['.'] + d;
    let bcd = b + seq!['.'] + cd;
    assert(a + seq!['.'] + b + seq!['.'] + c + seq!['.'] + d =~= a + seq!['.'] + bcd);
    lemma_split_concat(c, d, '.');
    lemma_split_concat(b, cd, '.');
    lemma_split_concat(a, bcd, '.');
    lemma_split_no_sep(a, '.');
    lemma_split_no_sep(b, '.');
    lemma_split_no_sep(c, '.');
    lemma_split_no_sep(d, '.');
    let parts = split_on(a + seq!['.'] + bcd, '.');
    assert(parts =~= seq![a, b, c, d]);
    assert(parts[0] == a && parts[1] == b && parts[2] == c && parts[3] == d);
}

proof fn lemma_digit_run_concat(x: Seq<char>, y: Seq<char>)
    requires
        forall|i: int| 0 <= i < x.len() ==> is_digit(#[trigger] x[i]) || x[i] == '.',
    ensures
        digit_run(x + y) == x.len() + digit_run(y),
    decreases x.len(),
{
    if x.len() > 0 {
        let t = x.drop_first();
        assert forall|i: int| 0 <= i < t.len() implies is_digit(#[trigger] t[i]) || t[i] == '.' by {
            assert(t[i] == x[i + 1]);
        }
        lemma_digit_run_concat(t, y);
        assert((x + y).drop_first() =~= t + y);
        assert((x + y)[0] == x[0]);
    } else {
        assert(x + y =~= y);
    }
}

/// Every `<em>` address `</em>` is taken: a text that starts with one
/// gives its address, then the addresses of the rest.
pub proof fn law_em_record_taken(x: Seq<char>, rest: Seq<char>)
    requires
        is_ipv4(x),
        forall|i: int| 0 <= i < x.len() ==> is_digit(#[trigger] x[i]) || x[i] == '.',
    ensures
        em_records(em_open() + x + em_close() + rest) == seq![x] + em_records(rest),
{
    let s = em_open() + x + em_close() + rest;
    let body = x + (em_close() + rest);
    assert(s.take(4) =~= em_open());
    assert(s.skip(4) =~= body);
    lemma_digit_run_concat(x, em_close() + rest);
    assert((em_close() + rest)[0] == '<');
    assert(digit_run(em_close() + rest) == 0);
    assert(body.take(x.len() as int) =~= x);
    assert(body.skip(x.len() as int) =~= em_close() + rest);
    assert((em_close() + rest).take(5) =~= em_close());
    assert(em_at(s) == Some(((x.len() + 9) as nat, x)));
    assert(s.skip((x.len() + 9) as int) =~= rest);
}

/// A text that starts with a character other than `<` gives the addresses
/// of the rest.
pub proof fn law_em_records_skip(c: char, rest: Seq<char>)
    requires
        c != '<',
    ensures
        em_records(seq![c] + rest) == em_records(rest),
{
    let s = seq![c] + rest;
    if s.len() >= 4 {
        assert(s.take(4)[0] == c);
        assert(s.take(4) != em_open()) by {
            assert(em_open()[0] == '<');
        }
    }
    assert(s.drop_first() =~= rest);
}

/// The number of digits and dots in `v` from position `i` on.
fn digit_run_at(v: &Vec<char>, i: usize) -> (r: usize)
    requires
        i <= v@.len(),
    ensures
        i + r <= v@.len(),
        r == digit_run(v@.skip(i as int)),
{
    let mut j: usize = i;
    while j < v.len() && (('0' <= v[j] && v[j] <= '9') || v[j] == '.')
        invariant
            i <= j <= v@.len(),
            digit_run(v@.skip(i as int)) == (j - i) + digit_run(v@.skip(j as int)),
        decreases v.len() - j,
    {
        assert(v@.skip(j as int).drop_first() =~= v@.skip(j + 1));
        assert(v@.skip(j as int)[0] == v@[j as int]);
        j = j + 1;
    }
    if j < v.len() {
        assert(v@.skip(j as int)[0] == v@[j as int]);
    }
    j - i
}

/// The pieces of `v[a..b]` between the separators `sep`.
fn split_range(v: &Vec<char>, a: usize, b: usize, sep: char) -> (r: Vec<Vec<char>>)
    requires
        a <= b <= v@.len(),
    ensures
        r@.map_values(|p: Vec<char>| p@) == split_on(v@.subrange(a as int, b as int), sep),
{
    let ghost s = v@.subrange(a as int, b as int);
    let mut done: Vec<Vec<char>> = Vec::new();
    let mut cur: Vec<char> = Vec::new();
    let mut i: usize = a;
    assert(s.take(0) =~= Seq::<char>::empty());
    while i < b
        invariant
            a <= i <= b <= v@.len(),
            s == v@.subrange(a as int, b as int),
            split_on(s.take(i - a), sep) == done@.map_values(|p: Vec<char>| p@).push(cur@),
        decreases b - i,
    {
        let c = v[i];
        assert(s.take(i + 1 - a).drop_last() =~= s.take(i - a));
        assert(s.take(i + 1 - a).last() == c);
        if c == sep {
            let ghost before = done@.map_values(|p: Vec<char>| p@);
            done.push(cur);
            cur = Vec::new();
            assert(done@.map_values(|p: Vec<char>| p@) =~= before.push(done@.last()@));
            assert(split_on(s.take(i + 1 - a), sep) =~= done@.map_values(|p: Vec<char>| p@).push(
                cur@,
            ));
        } else {
            cur.push(c);
            assert(split_on(s.take(i + 1 - a), sep) =~= done@.map_values(|p: Vec<char>| p@).push(
                cur@,
            ));
        }
        i = i + 1;
    }
    assert(s.take(b - a) =~= s);
    let ghost before = done@.map_values(|p: Vec<char>| p@);
    done.push(cur);
    assert(done@.map_values(|p: Vec<char>| p@) =~= before.push(done@.last()@));
    done
}

/// Whether `p` is an octet: one to three digits writing at most 255.
fn octet(p: &Vec<char>) -> (r: bool)
    ensures
        r == is_octet(p@),
{
    if p.len() < 1 || p.len() > 3 {
        return false;
    }
    let mut value: u32 = 0;
    let mut i: usize = 0;
    while i < p.len()
        invariant
            1 <= p@.len() <= 3,
            i <= p@.len(),
            forall|j: int| 0 <= j < i ==> is_digit(#[trigger] p@[j]),
            value == decimal(p@.take(i as int)),
            value < 1000,
            i < 3 ==> value < 100,
            i < 2 ==> value < 10,
            i < 1 ==> value == 0,
        decreases p.len() - i,
    {
        let c = p[i];
        if !('0' <= c && c <= '9') {
            return false;
        }
        assert(p@.take(i + 1).drop_last() =~= p@.take(i as int));
        assert(p@.take(i + 1).last() == c);
        value = value * 10 + ((c as u32) - ('0' as u32));
        i = i + 1;
    }
    assert(p@.take(p@.len() as int) =~= p@);
    value <= 255
}

/// Whether `v[a..b]` is an IPv4 address.
fn ipv4_range(v: &Vec<char>, a: usize, b: usize) -> (r: bool)
    requires
        a <= b <= v@.len(),
    ensures
        r == is_ipv4(v@.subrange(a as int, b as int)),
{
    let parts = split_range(v, a, b, '.');
    let ghost ps = parts@.map_values(|p: Vec<char>| p@);
    if parts.len() != 4 {
        return false;
    }
    let mut i: usize = 0;
    while i < 4
        invariant
            parts@.len() == 4,
            ps == parts@.map_values(|p: Vec<char>| p@),
            ps == split_on(v@.subrange(a as int, b as int), '.'),
            i <= 4,
            forall|j: int| 0 <= j < i ==> is_octet(#[trigger] ps[j]),
        decreases 4 - i,
    {
        if !octet(&parts[i]) {
            assert(ps[i as int] == parts@[i as int]@);
            return false;
        }
        assert(ps[i as int] == parts@[i as int]@);
        i = i + 1;
    }
    true
}

/// Whether `v` holds `<em>` + an IPv4 address + `</em>` at `i`: the length
/// of that text and the address.
fn em_at_pos(v: &Vec<char>, i: usize) -> (r: Option<(usize, Vec<char>)>)
    requires
        i <= v@.len(),
    ensures
        match em_at(v@.skip(i as int)) {
            Some((n, x)) => r matches Some((m, y)) && m == n && y@ == x,
            None => r is None,
        },
        r matches Some((m, _)) ==> i + m <= v@.len(),
{
    let ghost s = v@.skip(i as int);
    let n = v.len();
    if n - i < 4 || v[i] != '<' || v[i + 1] != 'e' || v[i + 2] != 'm' || v[i + 3] != '>' {
        proof {
            if s.len() >= 4 {
                assert(s.take(4)[0] == v@[i as int]);
                assert(s.take(4)[1] == v@[i + 1]);
                assert(s.take(4)[2] == v@[i + 2]);
                assert(s.take(4)[3] == v@[i + 3]);
            }
        }
        return None;
    }
    assert(s.take(4) =~= em_open());
    let body = i + 4;
    let ghost bs = s.skip(4);
    assert(bs =~= v@.skip(body as int));
    let run = digit_run_at(v, body);
    let end = body + run;
    let ghost after = bs.skip(run as int);
    assert(after =~= v@.skip(end as int));
    if n - end < 5 || v[end] != '<' || v[end + 1] != '/' || v[end + 2] != 'e' || v[end + 3] != 'm'
        || v[end + 4] != '>' {
        proof {
            if after.len() >= 5 {
                assert(after.take(5)[0] == v@[end as int]);
                assert(after.take(5)[1] == v@[end + 1]);
                assert(after.take(5)[2] == v@[end + 2]);
                assert(after.take(5)[3] == v@[end + 3]);
                assert(after.take(5)[4] == v@[end + 4]);
            }
        }
        return None;
    }
    assert(after.take(5) =~= em_close());
    assert(bs.take(run as int) =~= v@.subrange(body as int, end as int));
    if !ipv4_range(v, body, end) {
        return None;
    }
    let mut x: Vec<char> = Vec::new();
    let mut k: usize = body;
    while k < end
        invariant
            body <= k <= end <= v@.len(),
            x@ == v@.subrange(body as int, k as int),
        decreases end - k,
    {
        x.push(v[k]);
        assert(v@.subrange(body as int, k + 1) =~= v@.subrange(body as int, k as int).push(
            v@[k as int],
        ));
        k = k + 1;
    }
    Some((run + 9, x))
}

/// Whether the text `x` is among `out`.
fn contains_text(out: &Vec<String>, x: &String) -> (r: bool)
    ensures
        r == out@.map_values(|s: String| s@).contains(x@),
{
    let ghost m = out@.map_values(|s: String| s@);
    let mut i: usize = 0;
    while i < out.len()
        invariant
            i <= out@.len(),
            m == out@.map_values(|s: String| s@),
            forall|j: int| 0 <= j < i ==> m[j] != x@,
        decreases out.len() - i,
    {
        if out[i] == *x {
            assert(m[i as int] == x@);
            return true;
        }
        i = i + 1;
    }
    false
}

/// The distinct addresses that the page `body` lists after the first
/// occurrence of `ANSWER_MARKER`, in the order they first appear; an error
/// when the marker does not occur.
pub fn records_from_page(body: &str) -> (r: Result<Vec<String>, PageError>)
    ensures
        match r {
            Err(PageError::MarkerMissing) => forall|i: int| !occurs_at(body@, ANSWER_MARKER@, i),
            Ok(v) => exists|i: int|
                #[trigger] occurs_at(body@, ANSWER_MARKER@, i) && (forall|k: int|
                    0 <= k < i ==> !occurs_at(body@, ANSWER_MARKER@, k)) && v@.map_values(
                    |s: String| s@,
                ) == first_occurrences(em_records(body@.skip(i))),
        },
{
    let v = chars_of(body);
    let marker = chars_of(ANSWER_MARKER);
    match find_first(&v, &marker) {
        None => Err(PageError::MarkerMissing),
        Some(start) => {
            let out = em_addresses(&v, start);
            Ok(out)
        },
    }
}

/// The first position at which `p` occurs in `v`.
pub fn find_first(v: &Vec<char>, p: &Vec<char>) -> (r: Option<usize>)
    ensures
        match r {
            None => forall|i: int| !occurs_at(v@, p@, i),
            Some(i) => occurs_at(v@, p@, i as int) && forall|k: int|
                0 <= k < i ==> !occurs_at(v@, p@, k),
        },
{
    let mut start: usize = 0;
    while start <= v.len()
        invariant
            start <= v@.len() + 1,
            forall|k: int| 0 <= k < start ==> !occurs_at(v@, p@, k),
        decreases v.len() + 1 - start,
    {
        let found = matches_at(v, start, p);
        proof {
            if start + p@.len() <= v@.len() {
                assert(v@.skip(start as int).take(p@.len() as int) =~= v@.subrange(
                    start as int,
                    start + p@.len(),
                ));
            }
        }
        if found {
            return Some(start);
        }
        if start == v.len() {
            return None;
        }
        start = start + 1;
    }
    None
}

/// The distinct addresses listed in `v` from `start` on, in the order they
/// first appear.
fn em_addresses(v: &Vec<char>, start: usize) -> (r: Vec<String>)
    requires
        start <= v@.len(),
    ensures
        r@.map_values(|s: String| s@) == first_occurrences(em_records(v@.skip(start as int))),
{
    let mut out: Vec<String> = Vec::new();
    let ghost mut seen: Seq<Seq<char>> = seq![];
    let mut j: usize = start;
    while j < v.len()
        invariant
            start <= j <= v@.len(),
            em_records(v@.skip(start as int)) == seen + em_records(v@.skip(j as int)),
            out@.map_values(|s: String| s@) == first_occurrences(seen),
        decreases v.len() - j,
    {
        let ghost rest = v@.skip(j as int);
        match em_at_pos(v, j) {
            Some((n, x)) => {
                let text = string_of(&x);
                proof {
                    assert(rest.skip(n as int) =~= v@.skip(j + n));
                    assert(seen.push(x@) + em_records(v@.skip(j + n)) =~= seen + (seq![x@]
                        + em_records(v@.skip(j + n))));
                    assert(seen.push(x@).drop_last() =~= seen);
                }
                if !contains_text(&out, &text) {
                    let ghost before = out@.map_values(|s: String| s@);
                    out.push(text);
                    assert(out@.map_values(|s: String| s@) =~= before.push(x@));
                }
                proof {
                    seen = seen.push(x@);
                }
                j = j + n;
            },
            None => {
                assert(rest.drop_first() =~= v@.skip(j + 1));
                j = j + 1;
            },
        }
    }
    assert(v@.skip(j as int) =~= Seq::<char>::empty());
    assert(seen + Seq::<Seq<char>>::empty() =~= seen);
    out
}

} // verus!
