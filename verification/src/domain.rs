//! Which texts are domain names, and reading a list of domains from text.
//!
//! A domain name here is two or more labels joined by dots, each label one
//! to 63 ASCII letters, digits or hyphens and starting with a letter or a
//! digit: the language of
//! `^([a-zA-Z0-9][-a-zA-Z0-9]{0,62})(\.([a-zA-Z0-9][-a-zA-Z0-9]{0,62}))+$`.

use vstd::prelude::*;

use crate::text::{chars_of, string_of};

verus! {

pub open spec fn is_alnum(c: char) -> bool {
    ('a' <= c && c <= 'z') || ('A' <= c && c <= 'Z') || ('0' <= c && c <= '9')
}

pub open spec fn is_label_char(c: char) -> bool {
    is_alnum(c) || c == '-'
}

/// The longest a label may be.
pub const MAX_LABEL_LEN: usize = 63;

/// A label of `s` starts at `k`: `k` is first or follows a dot.
pub open spec fn label_start(s: Seq<char>, k: int) -> bool {
    k == 0 || s[k - 1] == '.'
}

/// `s` is a domain name: letters, digits, hyphens and dots only; at least
/// one dot; a letter or digit first and after every dot; no dot last; and
/// every label at most `MAX_LABEL_LEN` long (each of its characters lies
/// fewer than `MAX_LABEL_LEN` places after the label's start).
pub open spec fn is_domain(s: Seq<char>) -> bool {
    &&& s.contains('.')
    &&& s.last() != '.'
    &&& forall|i: int| 0 <= i < s.len() ==> is_label_char(#[trigger] s[i]) || s[i] == '.'
    &&& forall|i: int| 0 <= i < s.len() && #[trigger] label_start(s, i) ==> is_alnum(s[i])
    &&& forall|i: int|
        0 <= i < s.len() && #[trigger] s[i] != '.' ==> exists|k: int|
            i - MAX_LABEL_LEN < k <= i && #[trigger] label_start(s, k)
}

/// The letters and digits of a label are exactly the ASCII digits and the
/// ASCII letters of either case.
pub proof fn law_alnum_chars(c: char)
    ensures
        is_alnum(c) <==> (48 <= (c as int) <= 57 || 65 <= (c as int) <= 90 || 97 <= (c as int)
            <= 122),
        is_label_char(c) <==> is_alnum(c) || (c as int) == 45,
{
}

/// `a` and `b` are the same character, or the same ASCII letter in the two
/// cases.
pub open spec fn same_but_case(a: char, b: char) -> bool {
    ||| a == b
    ||| 65 <= (a as int) <= 90 && (b as int) == (a as int) + 32
    ||| 65 <= (b as int) <= 90 && (a as int) == (b as int) + 32
}

proof fn lemma_same_but_case(a: char, b: char)
    requires
        same_but_case(a, b),
    ensures
        is_alnum(a) == is_alnum(b),
        is_label_char(a) == is_label_char(b),
        (a == '.') == (b == '.'),
{
}

proof fn lemma_domain_case(s: Seq<char>, t: Seq<char>)
    requires
        s.len() == t.len(),
        forall|i: int| 0 <= i < s.len() ==> same_but_case(#[trigger] s[i], t[i]),
        is_domain(s),
    ensures
        is_domain(t),
{
    assert forall|i: int| 0 <= i < s.len() implies #[trigger] is_alnum(s[i]) == is_alnum(t[i])
        && is_label_char(s[i]) == is_label_char(t[i]) && (s[i] == '.') == (t[i] == '.') by {
        lemma_same_but_case(s[i], t[i]);
    }
    assert forall|k: int| 0 <= k <= s.len() implies #[trigger] label_start(s, k) == label_start(
        t,
        k,
    ) by {
        if k > 0 {
            assert((s[k - 1] == '.') == (t[k - 1] == '.'));
        }
    }
    let j = choose|j: int| 0 <= j < s.len() && s[j] == '.';
    assert(t[j] == '.');
    assert(t.contains('.'));
    assert(s[s.len() - 1] == s.last() && t[t.len() - 1] == t.last());
    assert forall|i: int| 0 <= i < t.len() implies is_label_char(#[trigger] t[i]) || t[i] == '.' by {
        assert(is_label_char(s[i]) || s[i] == '.');
    }
    assert forall|i: int| 0 <= i < t.len() && #[trigger] label_start(t, i) implies is_alnum(t[i]) by {
        assert(label_start(s, i));
    }
    assert forall|i: int| 0 <= i < t.len() && #[trigger] t[i] != '.' implies exists|k: int|
        i - MAX_LABEL_LEN < k <= i && #[trigger] label_start(t, k) by {
        assert(s[i] != '.');
        let k = choose|k: int| i - MAX_LABEL_LEN < k <= i && #[trigger] label_start(s, k);
        if k < 0 {
            assert(label_start(t, 0));
        } else {
            assert(label_start(t, k));
        }
    }
}

/// Whether a text is a domain name does not depend on the case of its
/// ASCII letters.
pub proof fn law_domain_case_insensitive(s: Seq<char>, t: Seq<char>)
    requires
        s.len() == t.len(),
        forall|i: int| 0 <= i < s.len() ==> same_but_case(#[trigger] s[i], t[i]),
    ensures
        is_domain(s) == is_domain(t),
{
    if is_domain(s) {
        lemma_domain_case(s, t);
    }
    if is_domain(t) {
        assert forall|i: int| 0 <= i < t.len() implies same_but_case(#[trigger] t[i], s[i]) by {
            assert(same_but_case(s[i], t[i]));
        }
        lemma_domain_case(t, s);
    }
}

fn alnum(c: char) -> (r: bool)
    ensures
        r == is_alnum(c),
{
    ('a' <= c && c <= 'z') || ('A' <= c && c <= 'Z') || ('0' <= c && c <= '9')
}

/// Whether the characters `v` form a domain name.
#[verifier::rlimit(40)]
pub fn is_domain_chars(v: &Vec<char>) -> (r: bool)
    ensures
        r == is_domain(v@),
{
    let ghost s = v@;
    let n = v.len();
    if n == 0 {
        return false;
    }
    let mut seen_dot = false;
    // length of the run of non-dot characters ending just before `i`
    let mut run: usize = 0;
    let mut i: usize = 0;
    while i < n
        invariant
            n == v@.len(),
            s == v@,
            n > 0,
            i <= n,
            run <= i,
            run <= MAX_LABEL_LEN,
            seen_dot <==> s.take(i as int).contains('.'),
            forall|j: int| i - run <= j < i ==> s[j] != '.',
            forall|j: int| 0 <= j < i ==> is_label_char(#[trigger] s[j]) || s[j] == '.',
            forall|j: int| 0 <= j < i && #[trigger] label_start(s, j) ==> is_alnum(s[j]),
            forall|j: int|
                0 <= j < i && #[trigger] s[j] != '.' ==> exists|k: int|
                    j - MAX_LABEL_LEN < k <= j && #[trigger] label_start(s, k),
            run > 0 ==> label_start(s, i - run),
            run == 0 ==> label_start(s, i as int),
        decreases n - i,
    {
        let c = v[i];
        assert(s.take(i + 1) =~= s.take(i as int).push(c));
        if c == '.' {
            if run == 0 {
                // an empty label (or a leading dot)
                assert(label_start(s, i as int));
                return false;
            }
            seen_dot = true;
            run = 0;
        } else {
            if !(alnum(c) || c == '-') {
                return false;
            }
            if run == 0 && !alnum(c) {
                assert(label_start(s, i as int));
                return false;
            }
            if run == MAX_LABEL_LEN {
                proof {
                    assert forall|k: int| i - MAX_LABEL_LEN < k <= i implies !label_start(s, k) by {
                        assert(s[k - 1] != '.');
                    }
                }
                return false;
            }
            run = run + 1;
        }
        proof {
            let a = s.take(i as int);
            let b = s.take(i + 1);
            if b.contains('.') && !a.contains('.') {
                let k = choose|k: int| 0 <= k < b.len() && b[k] == '.';
                if k < i {
                    assert(a[k] == '.');
                }
            }
            if a.contains('.') {
                let k = choose|k: int| 0 <= k < a.len() && a[k] == '.';
                assert(b[k] == '.');
            }
            if c == '.' {
                assert(b[i as int] == '.');
            }
            if c != '.' {
                assert(label_start(s, i + 1 - run));
            }
        }
        i = i + 1;
    }
    assert(s.take(n as int) =~= s);
    if run == 0 {
        assert(s.last() == '.');
    }
    seen_dot && run > 0
}

/// Whether `v` is a domain name.
pub fn is_valid_domain(v: &str) -> (r: bool)
    ensures
        r == is_domain(v@),
{
    let cs = chars_of(v);
    is_domain_chars(&cs)
}


/// A label: one to 63 letters, digits or hyphens, starting with a letter
/// or a digit.
pub open spec fn is_label(l: Seq<char>) -> bool {
    &&& 1 <= l.len() <= 63
    &&& is_alnum(l[0])
    &&& forall|i: int| 0 <= i < l.len() ==> is_label_char(#[trigger] l[i])
}

/// Two labels joined by a dot form a domain name; so labels of 63
/// characters are allowed.
pub proof fn law_two_labels(a: Seq<char>, b: Seq<char>)
    requires
        is_label(a),
        is_label(b),
    ensures
        is_domain(a + seq!['.'] + b),
{
    let s = a + seq!['.'] + b;
    let n = a.len() as int;
    assert forall|i: int| 0 <= i < n implies #[trigger] s[i] == a[i] && a[i] != '.' by {
        assert(is_label_char(a[i]));
    }
    assert forall|i: int| n < i < s.len() implies #[trigger] s[i] == b[i - n - 1] && b[i - n - 1]
        != '.' by {
        assert(is_label_char(b[i - n - 1]));
    }
    assert(s[n] == '.');
    assert(s.contains('.'));
    assert(s.last() == b.last() && b.last() == b[b.len() - 1]);
    assert(is_label_char(b[b.len() - 1]));
    assert forall|i: int| 0 <= i < s.len() implies is_label_char(#[trigger] s[i]) || s[i] == '.' by {
        if i < n {
            assert(is_label_char(a[i]));
        } else if i > n {
            assert(is_label_char(b[i - n - 1]));
        }
    }
    assert forall|i: int| 0 <= i < s.len() && #[trigger] label_start(s, i) implies is_alnum(s[i]) by {
        if i == 0 {
            assert(s[0] == a[0]);
        } else if i == n + 1 {
            assert(s[i] == b[0]);
        } else if i <= n {
            assert(s[i - 1] == a[i - 1]);
        } else {
            assert(s[i - 1] == b[i - n - 2]);
        }
    }
    assert forall|i: int| 0 <= i < s.len() && #[trigger] s[i] != '.' implies exists|k: int|
        i - MAX_LABEL_LEN < k <= i && #[trigger] label_start(s, k) by {
        if i < n {
            assert(label_start(s, 0));
        } else {
            assert(label_start(s, n + 1));
        }
    }
}

/// A run of 64 characters without a dot makes no domain name, whatever
/// surrounds it.
pub proof fn law_label_too_long(x: Seq<char>, a: Seq<char>, y: Seq<char>)
    requires
        a.len() == 64,
        forall|i: int| 0 <= i < a.len() ==> #[trigger] a[i] != '.',
    ensures
        !is_domain(x + a + y),
{
    let s = x + a + y;
    let i = x.len() + 63int;
    assert(s[i] == a[63]);
    if is_domain(s) {
        let k = choose|k: int| i - MAX_LABEL_LEN < k <= i && #[trigger] label_start(s, k);
        assert(k > x.len());
        assert(s[k - 1] == a[k - 1 - x.len()]);
    }
}

/// Trimming takes white space off both ends and nothing else: the trimmed
/// text sits inside the line with only white space around it, and neither
/// starts nor ends with white space.
pub proof fn law_trim(s: Seq<char>)
    ensures
        exists|a: int, b: int|
            0 <= a <= b <= s.len() && s.subrange(a, b) == trim(s) && (forall|j: int|
                0 <= j < a ==> is_white_space(#[trigger] s[j])) && (forall|j: int|
                b <= j < s.len() ==> is_white_space(#[trigger] s[j])),
        trim(s).len() > 0 ==> !is_white_space(trim(s)[0]) && !is_white_space(
            trim(s)[trim(s).len() - 1],
        ),
{
    lemma_trim_start_shape(s);
    let a = choose|a: int|
        0 <= a <= s.len() && trim_start(s) == s.skip(a) && (forall|j: int|
            0 <= j < a ==> is_white_space(#[trigger] s[j])) && (a == s.len() || !is_white_space(
            s[a],
        ));
    let u = s.skip(a);
    lemma_trim_end_shape(u);
    let b = choose|b: int|
        0 <= b <= u.len() && trim_end(u) == u.take(b) && (forall|j: int|
            b <= j < u.len() ==> is_white_space(#[trigger] u[j])) && (b == 0 || !is_white_space(
            u[b - 1],
        ));
    assert(s.subrange(a, a + b) =~= u.take(b));
    assert forall|j: int| a + b <= j < s.len() implies is_white_space(#[trigger] s[j]) by {
        assert(s[j] == u[j - a]);
    }
    if b > 0 {
        assert(u.take(b)[0] == u[0]);
        assert(u[0] == s[a]);
        assert(u.take(b)[b - 1] == u[b - 1]);
    }
}

proof fn lemma_trim_start_shape(s: Seq<char>)
    ensures
        exists|a: int|
            0 <= a <= s.len() && trim_start(s) == s.skip(a) && (forall|j: int|
                0 <= j < a ==> is_white_space(#[trigger] s[j])) && (a == s.len() || !is_white_space(
                s[a],
            )),
    decreases s.len(),
{
    if s.len() > 0 && is_white_space(s[0]) {
        let t = s.drop_first();
        lemma_trim_start_shape(t);
        let a = choose|a: int|
            0 <= a <= t.len() && trim_start(t) == t.skip(a) && (forall|j: int|
                0 <= j < a ==> is_white_space(#[trigger] t[j])) && (a == t.len() || !is_white_space(
                t[a],
            ));
        assert(t.skip(a) =~= s.skip(a + 1));
        assert forall|j: int| 0 <= j < a + 1 implies is_white_space(#[trigger] s[j]) by {
            if j > 0 {
                assert(s[j] == t[j - 1]);
            }
        }
        if a < t.len() {
            assert(s[a + 1] == t[a]);
        }
    } else {
        assert(s.skip(0) =~= s);
    }
}

proof fn lemma_trim_end_shape(s: Seq<char>)
    ensures
        exists|b: int|
            0 <= b <= s.len() && trim_end(s) == s.take(b) && (forall|j: int|
                b <= j < s.len() ==> is_white_space(#[trigger] s[j])) && (b == 0 || !is_white_space(
                s[b - 1],
            )),
    decreases s.len(),
{
    if s.len() > 0 && is_white_space(s.last()) {
        let t = s.drop_last();
        lemma_trim_end_shape(t);
        let b = choose|b: int|
            0 <= b <= t.len() && trim_end(t) == t.take(b) && (forall|j: int|
                b <= j < t.len() ==> is_white_space(#[trigger] t[j])) && (b == 0 || !is_white_space(
                t[b - 1],
            ));
        assert(t.take(b) =~= s.take(b));
        assert forall|j: int| b <= j < s.len() implies is_white_space(#[trigger] s[j]) by {
            if j < t.len() {
                assert(s[j] == t[j]);
            } else {
                assert(s[j] == s.last());
            }
        }
        if b > 0 {
            assert(s[b - 1] == t[b - 1]);
        }
    } else {
        assert(s.take(s.len() as int) =~= s);
        if s.len() > 0 {
            assert(s[s.len() - 1] == s.last());
        }
    }
}

/// A line ends at a line feed or a carriage return.
pub open spec fn is_line_break(c: char) -> bool {
    c == '\n' || c == '\r'
}

/// The lines of `s`: the pieces between line breaks, so `n` breaks give
/// `n + 1` lines, some of them empty.
pub open spec fn lines_of(s: Seq<char>) -> Seq<Seq<char>>
    decreases s.len(),
{
    if s.len() == 0 {
        seq![Seq::empty()]
    } else {
        let p = lines_of(s.drop_last());
        if is_line_break(s.last()) {
            p.push(Seq::empty())
        } else {
            p.update(p.len() - 1, p.last().push(s.last()))
        }
    }
}

/// Unicode's `White_Space` characters: those `char::is_whitespace` accepts.
pub open spec fn is_white_space(c: char) -> bool {
    ||| ('\u{9}' <= c && c <= '\u{d}')
    ||| c == ' '
    ||| c == '\u{85}'
    ||| c == '\u{a0}'
    ||| c == '\u{1680}'
    ||| ('\u{2000}' <= c && c <= '\u{200a}')
    ||| c == '\u{2028}'
    ||| c == '\u{2029}'
    ||| c == '\u{202f}'
    ||| c == '\u{205f}'
    ||| c == '\u{3000}'
}

pub open spec fn trim_start(s: Seq<char>) -> Seq<char>
    decreases s.len(),
{
    if s.len() > 0 && is_white_space(s[0]) {
        trim_start(s.drop_first())
    } else {
        s
    }
}

pub open spec fn trim_end(s: Seq<char>) -> Seq<char>
    decreases s.len(),
{
    if s.len() > 0 && is_white_space(s.last()) {
        trim_end(s.drop_last())
    } else {
        s
    }
}

/// `s` without white space at either end.
pub open spec fn trim(s: Seq<char>) -> Seq<char> {
    trim_end(trim_start(s))
}

/// The trimmed lines that are domain names, in order.
pub open spec fn domains_in_lines(ls: Seq<Seq<char>>) -> Seq<Seq<char>>
    decreases ls.len(),
{
    if ls.len() == 0 {
        seq![]
    } else {
        let r = domains_in_lines(ls.drop_last());
        let t = trim(ls.last());
        if is_domain(t) {
            r.push(t)
        } else {
            r
        }
    }
}

/// The white space trimmed from a line is exactly Unicode's `White_Space`
/// set: U+0009 to U+000D, U+0020, U+0085, U+00A0, U+1680, U+2000 to U+200A,
/// U+2028, U+2029, U+202F, U+205F and U+3000.
pub proof fn law_white_space(c: char)
    ensures
        is_white_space(c) <==> {
            let x = c as int;
            ||| 0x9 <= x <= 0xd
            ||| x == 0x20
            ||| x == 0x85
            ||| x == 0xa0
            ||| x == 0x1680
            ||| 0x2000 <= x <= 0x200a
            ||| x == 0x2028
            ||| x == 0x2029
            ||| x == 0x202f
            ||| x == 0x205f
            ||| x == 0x3000
        },
{
}

proof fn lemma_lines_nonempty(s: Seq<char>)
    ensures
        lines_of(s).len() >= 1,
    decreases s.len(),
{
    if s.len() > 0 {
        lemma_lines_nonempty(s.drop_last());
    }
}

/// A text without line breaks is one line.
pub proof fn law_one_line(s: Seq<char>)
    requires
        forall|i: int| 0 <= i < s.len() ==> !is_line_break(#[trigger] s[i]),
    ensures
        lines_of(s) == seq![s],
    decreases s.len(),
{
    if s.len() > 0 {
        let t = s.drop_last();
        assert forall|i: int| 0 <= i < t.len() implies !is_line_break(#[trigger] t[i]) by {
            assert(t[i] == s[i]);
        }
        law_one_line(t);
        assert(s[s.len() - 1] == s.last());
        assert(t.push(s.last()) =~= s);
        let p = lines_of(t);
        assert(p.update(0, t.push(s.last())) =~= seq![s]);
    } else {
        assert(s =~= Seq::<char>::empty());
    }
}

/// A line feed or a carriage return ends a line: the lines of a text with
/// one of them in the middle are the lines before it followed by the lines
/// after it.
pub proof fn law_lines_split(x: Seq<char>, c: char, y: Seq<char>)
    requires
        c == '\n' || c == '\r',
    ensures
        lines_of(x + seq![c] + y) == lines_of(x) + lines_of(y),
    decreases y.len(),
{
    let xs = x + seq![c];
    if y.len() == 0 {
        assert(xs + y =~= xs);
        assert(xs.drop_last() =~= x);
        assert(lines_of(x).push(Seq::empty()) =~= lines_of(x) + seq![Seq::<char>::empty()]);
    } else {
        let y1 = y.drop_last();
        law_lines_split(x, c, y1);
        lemma_lines_nonempty(y1);
        lemma_lines_nonempty(x);
        assert((xs + y).drop_last() =~= xs + y1);
        assert((xs + y).last() == y.last());
        let a = lines_of(x);
        let b = lines_of(y1);
        if is_line_break(y.last()) {
            assert((a + b).push(Seq::empty()) =~= a + b.push(Seq::empty()));
        } else {
            assert((a + b).last() == b.last());
            assert((a + b).update((a + b).len() - 1, b.last().push(y.last())) =~= a + b.update(
                b.len() - 1,
                b.last().push(y.last()),
            ));
        }
    }
}

/// The names read from lines are those read from each line, in order: a
/// line gives its trimmed text when that is a domain name, and nothing
/// otherwise.
pub proof fn law_domains_in_lines_concat(a: Seq<Seq<char>>, b: Seq<Seq<char>>)
    ensures
        domains_in_lines(a + b) == domains_in_lines(a) + domains_in_lines(b),
    decreases b.len(),
{
    if b.len() == 0 {
        assert(a + b =~= a);
        assert(domains_in_lines(a) + Seq::<Seq<char>>::empty() =~= domains_in_lines(a));
    } else {
        law_domains_in_lines_concat(a, b.drop_last());
        assert((a + b).drop_last() =~= a + b.drop_last());
        assert((a + b).last() == b.last());
        let t = trim(b.last());
        if is_domain(t) {
            assert((domains_in_lines(a) + domains_in_lines(b.drop_last())).push(t) =~= domains_in_lines(
                a,
            ) + domains_in_lines(b.drop_last()).push(t));
        }
    }
}

/// One line gives its trimmed text when that is a domain name, and nothing
/// otherwise.
pub proof fn law_domains_in_line(l: Seq<char>)
    ensures
        domains_in_lines(seq![l]) == (if is_domain(trim(l)) {
            seq![trim(l)]
        } else {
            Seq::<Seq<char>>::empty()
        }),
{
    assert(seq![l].drop_last() =~= Seq::<Seq<char>>::empty());
    assert(domains_in_lines(seq![l].drop_last()) == Seq::<Seq<char>>::empty());
    assert(seq![l].last() == l);
    assert(Seq::<Seq<char>>::empty().push(trim(l)) =~= seq![trim(l)]);
}

fn white_space(c: char) -> (r: bool)
    ensures
        r == is_white_space(c),
{
    ('\u{9}' <= c && c <= '\u{d}') || c == ' ' || c == '\u{85}' || c == '\u{a0}' || c == '\u{1680}'
        || ('\u{2000}' <= c && c <= '\u{200a}') || c == '\u{2028}' || c == '\u{2029}' || c
        == '\u{202f}' || c == '\u{205f}' || c == '\u{3000}'
}

proof fn lemma_trim_start(s: Seq<char>, a: int)
    requires
        0 <= a <= s.len(),
        forall|j: int| 0 <= j < a ==> is_white_space(#[trigger] s[j]),
        a == s.len() || !is_white_space(s[a]),
    ensures
        trim_start(s) == s.skip(a),
    decreases a,
{
    if a == 0 {
        assert(s.skip(0) =~= s);
    } else {
        let t = s.drop_first();
        assert forall|j: int| 0 <= j < a - 1 implies is_white_space(#[trigger] t[j]) by {
            assert(t[j] == s[j + 1]);
        }
        if a - 1 < t.len() {
            assert(t[a - 1] == s[a]);
        }
        lemma_trim_start(t, a - 1);
        assert(t.skip(a - 1) =~= s.skip(a));
    }
}

proof fn lemma_trim_end(s: Seq<char>, b: int)
    requires
        0 <= b <= s.len(),
        forall|j: int| b <= j < s.len() ==> is_white_space(#[trigger] s[j]),
        b == 0 || !is_white_space(s[b - 1]),
    ensures
        trim_end(s) == s.take(b),
    decreases s.len() - b,
{
    if b == s.len() {
        assert(s.take(b) =~= s);
    } else {
        let t = s.drop_last();
        assert forall|j: int| b <= j < t.len() implies is_white_space(#[trigger] t[j]) by {
            assert(t[j] == s[j]);
        }
        if b > 0 {
            assert(t[b - 1] == s[b - 1]);
        }
        assert(is_white_space(s[s.len() - 1]));
        lemma_trim_end(t, b);
        assert(t.take(b) =~= s.take(b));
    }
}

/// The characters of `v` without white space at either end.
pub fn trimmed(v: &Vec<char>) -> (r: Vec<char>)
    ensures
        r@ == trim(v@),
{
    let n = v.len();
    let mut a: usize = 0;
    while a < n && white_space(v[a])
        invariant
            n == v@.len(),
            a <= n,
            forall|j: int| 0 <= j < a ==> is_white_space(#[trigger] v@[j]),
        decreases n - a,
    {
        a = a + 1;
    }
    proof {
        lemma_trim_start(v@, a as int);
    }
    let mut b: usize = n;
    while b > a && white_space(v[b - 1])
        invariant
            n == v@.len(),
            a <= b <= n,
            forall|j: int| b <= j < n ==> is_white_space(#[trigger] v@[j]),
        decreases b,
    {
        b = b - 1;
    }
    let ghost u = v@.skip(a as int);
    proof {
        assert forall|j: int| b - a <= j < u.len() implies is_white_space(#[trigger] u[j]) by {
            assert(u[j] == v@[j + a]);
        }
        if b > a {
            assert(u[b - a - 1] == v@[b - 1]);
        }
        lemma_trim_end(u, b - a);
    }
    let mut r: Vec<char> = Vec::new();
    let mut i: usize = a;
    while i < b
        invariant
            n == v@.len(),
            a <= i <= b <= n,
            u == v@.skip(a as int),
            r@ == u.take(i - a),
        decreases b - i,
    {
        r.push(v[i]);
        assert(u.take(i + 1 - a) =~= u.take(i - a).push(v@[i as int]));
        i = i + 1;
    }
    r
}

/// Every name read from a list is a domain name.
pub proof fn law_listed_names_are_domains(ls: Seq<Seq<char>>)
    ensures
        forall|i: int|
            0 <= i < domains_in_lines(ls).len() ==> is_domain(#[trigger] domains_in_lines(ls)[i]),
    decreases ls.len(),
{
    if ls.len() > 0 {
        let r = domains_in_lines(ls.drop_last());
        law_listed_names_are_domains(ls.drop_last());
        assert forall|i: int|
            0 <= i < domains_in_lines(ls).len() implies is_domain(
            #[trigger] domains_in_lines(ls)[i],
        ) by {
            if i < r.len() {
                assert(domains_in_lines(ls)[i] == r[i]);
            }
        }
    }
}

/// The domain names listed in `txt`, one per line: each line is trimmed of
/// white space, and the trimmed lines that are domain names are kept, in
/// order.
pub fn domains_in_text(txt: &str) -> (r: Vec<String>)
    ensures
        r@.map_values(|s: String| s@) == domains_in_lines(lines_of(txt@)),
{
    let cs = chars_of(txt);
    let ghost s = cs@;
    let mut out: Vec<String> = Vec::new();
    let mut cur: Vec<char> = Vec::new();
    let ghost mut done: Seq<Seq<char>> = seq![];
    let mut i: usize = 0;
    while i < cs.len()
        invariant
            s == cs@,
            i <= s.len(),
            lines_of(s.take(i as int)) == done.push(cur@),
            out@.map_values(|x: String| x@) == domains_in_lines(done),
        decreases cs.len() - i,
    {
        let c = cs[i];
        let ghost prev = s.take(i as int);
        assert(s.take(i + 1).drop_last() =~= prev);
        assert(s.take(i + 1).last() == c);
        if c == '\n' || c == '\r' {
            let t = trimmed(&cur);
            if is_domain_chars(&t) {
                let ghost before = out@;
                out.push(string_of(&t));
                assert(out@.map_values(|x: String| x@) =~= before.map_values(|x: String| x@).push(t@));
            }
            proof {
                assert(done.push(cur@).drop_last() =~= done);
                done = done.push(cur@);
            }
            cur = Vec::new();
            assert(lines_of(s.take(i + 1)) =~= done.push(cur@));
        } else {
            let ghost old_cur = cur@;
            cur.push(c);
            assert(lines_of(s.take(i + 1)) =~= done.push(cur@));
        }
        i = i + 1;
    }
    assert(s.take(s.len() as int) =~= s);
    let t = trimmed(&cur);
    proof {
        assert(done.push(cur@).drop_last() =~= done);
    }
    if is_domain_chars(&t) {
        let ghost before = out@;
        out.push(string_of(&t));
        assert(out@.map_values(|x: String| x@) =~= before.map_values(|x: String| x@).push(t@));
    }
    out
}

} // verus!
