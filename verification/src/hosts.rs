//! Writing the chosen addresses out as a hosts file.

use chrono::{DateTime, TimeDelta};
use vstd::prelude::*;

use crate::text::{chars_of, matches_at, string_of};

verus! {

/// `s` with every occurrence of `pat` replaced by `with`, scanning from the
/// left and not overlapping: what `str::replace` returns. An empty `pat`
/// occurs before every character and at the end.
pub open spec fn replace(s: Seq<char>, pat: Seq<char>, with: Seq<char>) -> Seq<char>
    decreases s.len(),
{
    if pat.len() == 0 {
        if s.len() == 0 {
            with
        } else {
            with + seq![s[0]] + replace(s.drop_first(), pat, with)
        }
    } else if s.len() < pat.len() {
        s
    } else if s.take(pat.len() as int) == pat {
        with + replace(s.skip(pat.len() as int), pat, with)
    } else {
        seq![s[0]] + replace(s.drop_first(), pat, with)
    }
}

/// `p` occurs in `s` at position `i`.
pub open spec fn occurs_in_at(s: Seq<char>, p: Seq<char>, i: int) -> bool {
    0 <= i && i + p.len() <= s.len() && s.subrange(i, i + p.len()) == p
}

/// A text in which a non-empty pattern does not occur is left as it is.
pub proof fn law_replace_absent(s: Seq<char>, pat: Seq<char>, with: Seq<char>)
    requires
        pat.len() > 0,
        forall|i: int| !#[trigger] occurs_in_at(s, pat, i),
    ensures
        replace(s, pat, with) == s,
    decreases s.len(),
{
    if s.len() >= pat.len() {
        assert(s.take(pat.len() as int) =~= s.subrange(0, pat.len() as int));
        assert(!occurs_in_at(s, pat, 0));
        let t = s.drop_first();
        assert forall|i: int| !#[trigger] occurs_in_at(t, pat, i) by {
            if occurs_in_at(t, pat, i) {
                assert(s.subrange(i + 1, i + 1 + pat.len()) =~= t.subrange(i, i + pat.len()));
                assert(occurs_in_at(s, pat, i + 1));
            }
        }
        law_replace_absent(t, pat, with);
        assert(seq![s[0]] + t =~= s);
    }
}

/// Every occurrence is replaced, the first one included: a text that starts
/// with the non-empty pattern is `with` followed by the rest, replaced.
pub proof fn law_replace_leading(s: Seq<char>, pat: Seq<char>, with: Seq<char>)
    requires
        pat.len() > 0,
    ensures
        replace(pat + s, pat, with) == with + replace(s, pat, with),
{
    let x = pat + s;
    assert(x.take(pat.len() as int) =~= pat);
    assert(x.skip(pat.len() as int) =~= s);
}

/// A text whose first character starts no occurrence of a non-empty
/// pattern keeps that character, and the rest is replaced.
pub proof fn law_replace_prefix_char(c: char, s: Seq<char>, pat: Seq<char>, with: Seq<char>)
    requires
        pat.len() > 0,
        !occurs_in_at(seq![c] + s, pat, 0),
    ensures
        replace(seq![c] + s, pat, with) == seq![c] + replace(s, pat, with),
{
    let x = seq![c] + s;
    if x.len() >= pat.len() {
        assert(x.take(pat.len() as int) =~= x.subrange(0, pat.len() as int));
    }
    assert(x.drop_first() =~= s);
}

/// An empty pattern puts `with` before every character and at the end.
pub proof fn law_replace_empty_pattern(c: char, s: Seq<char>, with: Seq<char>)
    ensures
        replace(Seq::empty(), Seq::empty(), with) == with,
        replace(seq![c] + s, Seq::empty(), with) == with + seq![c] + replace(s, Seq::empty(), with),
{
    let x = seq![c] + s;
    assert(x[0] == c);
    assert(x.drop_first() =~= s);
}

/// Appends the characters `w` to `out`.
fn push_all(out: &mut Vec<char>, w: &Vec<char>)
    ensures
        final(out)@ == old(out)@ + w@,
{
    let mut k: usize = 0;
    let ghost before = out@;
    while k < w.len()
        invariant
            k <= w@.len(),
            out@ == before + w@.take(k as int),
        decreases w.len() - k,
    {
        out.push(w[k]);
        assert(w@.take(k + 1) =~= w@.take(k as int).push(w@[k as int]));
        k = k + 1;
    }
    assert(w@.take(w@.len() as int) =~= w@);
}

/// `s` with `with` put before every character and at the end: `replace`
/// with an empty pattern.
fn interleave(v: &Vec<char>, w: &Vec<char>) -> (r: Vec<char>)
    ensures
        r@ == replace(v@, Seq::empty(), w@),
{
    let mut out: Vec<char> = Vec::new();
    let mut i: usize = 0;
    assert(v@.skip(0) =~= v@);
    while i < v.len()
        invariant
            i <= v@.len(),
            replace(v@, Seq::empty(), w@) == out@ + replace(v@.skip(i as int), Seq::empty(), w@),
        decreases v.len() - i,
    {
        let ghost rest = v@.skip(i as int);
        let ghost before = out@;
        push_all(&mut out, w);
        out.push(v[i]);
        assert(rest.drop_first() =~= v@.skip(i + 1));
        assert(rest[0] == v@[i as int]);
        assert(before + (w@ + seq![rest[0]] + replace(v@.skip(i + 1), Seq::empty(), w@)) =~= out@
            + replace(v@.skip(i + 1), Seq::empty(), w@));
        i = i + 1;
    }
    assert(v@.skip(i as int) =~= Seq::<char>::empty());
    push_all(&mut out, w);
    out
}

/// `s` with every occurrence of `pat` replaced by `with`.
pub fn replace_all(s: &str, pat: &str, with: &str) -> (r: String)
    ensures
        r@ == replace(s@, pat@, with@),
{
    let v = chars_of(s);
    let p = chars_of(pat);
    let w = chars_of(with);
    if p.len() == 0 {
        let out = interleave(&v, &w);
        assert(p@ =~= Seq::<char>::empty());
        return string_of(&out);
    }
    let mut out: Vec<char> = Vec::new();
    let mut i: usize = 0;
    assert(v@.skip(0) =~= v@);
    while i < v.len()
        invariant
            p@.len() > 0,
            i <= v@.len(),
            replace(v@, p@, w@) == out@ + replace(v@.skip(i as int), p@, w@),
        decreases v.len() - i,
    {
        let ghost rest = v@.skip(i as int);
        if matches_at(&v, i, &p) {
            let ghost before = out@;
            push_all(&mut out, &w);
            assert(rest.skip(p@.len() as int) =~= v@.skip(i + p@.len()));
            assert(before + (w@ + replace(v@.skip(i + p@.len()), p@, w@)) =~= out@ + replace(
                v@.skip(i + p@.len()),
                p@,
                w@,
            ));
            i = i + p.len();
        } else {
            let ghost before = out@;
            out.push(v[i]);
            assert(rest.drop_first() =~= v@.skip(i + 1));
            assert(rest[0] == v@[i as int]);
            assert(before + (seq![rest[0]] + replace(v@.skip(i + 1), p@, w@)) =~= out@ + replace(
                v@.skip(i + 1),
                p@,
                w@,
            ));
            i = i + 1;
        }
    }
    assert(replace(v@.skip(i as int), p@, w@) =~= Seq::<char>::empty());
    assert(out@ + Seq::<char>::empty() =~= out@);
    string_of(&out)
}


/// The hosts file around the entries: `{}` stands for the entries and
/// `{time}` for the time of the update.
pub const HOSTS_TEMPLATE: &'static str = "\n# start\n\n{}\n\n# github repository: https://github.com/ts-sf/github-hosts\n\n# update at {time}\n\n# end \n";

/// The hosts-file line of one answer: the address, two tabs, the domain and
/// a line feed.
pub open spec fn host_line(domain: Seq<char>, ip: Seq<char>) -> Seq<char> {
    ip + "\t\t"@ + domain + "\n"@
}

/// The hosts-file lines of the answers, in order.
pub open spec fn host_lines(a: Seq<(String, (String, u32))>) -> Seq<char>
    decreases a.len(),
{
    if a.len() == 0 {
        seq![]
    } else {
        host_lines(a.drop_last()) + host_line(a.last().0@, a.last().1.0@)
    }
}

/// Each answer gives one line, the address, two tabs, the domain and a
/// line feed, after the lines of the answers before it.
pub proof fn law_host_lines_push(a: Seq<(String, (String, u32))>, x: (String, (String, u32)))
    ensures
        host_lines(a.push(x)) == host_lines(a) + x.1.0@ + "\t\t"@ + x.0@ + "\n"@,
{
    assert(a.push(x).drop_last() =~= a);
}

/// The lines of two lists of answers, one after the other, are the lines
/// of the lists, one after the other.
pub proof fn law_host_lines_concat(a: Seq<(String, (String, u32))>, b: Seq<(String, (String, u32))>)
    ensures
        host_lines(a + b) == host_lines(a) + host_lines(b),
    decreases b.len(),
{
    if b.len() == 0 {
        assert(a + b =~= a);
        assert(host_lines(a) + Seq::<char>::empty() =~= host_lines(a));
    } else {
        law_host_lines_concat(a, b.drop_last());
        assert((a + b).drop_last() =~= a + b.drop_last());
        assert((a + b).last() == b.last());
        assert(host_lines(a) + host_lines(b.drop_last()) + host_line(b.last().0@, b.last().1.0@)
            =~= host_lines(a) + (host_lines(b.drop_last()) + host_line(
            b.last().0@,
            b.last().1.0@,
        )));
    }
}

/// The lines do not depend on the delays: two lists with the same domains
/// and addresses, pair by pair, give the same lines.
pub proof fn law_host_lines_ignore_delays(
    a: Seq<(String, (String, u32))>,
    b: Seq<(String, (String, u32))>,
)
    requires
        a.len() == b.len(),
        forall|i: int| 0 <= i < a.len() ==> #[trigger] a[i].0@ == b[i].0@ && a[i].1.0@ == b[i].1.0@,
    ensures
        host_lines(a) == host_lines(b),
    decreases a.len(),
{
    if a.len() > 0 {
        let a1 = a.drop_last();
        let b1 = b.drop_last();
        assert forall|i: int| 0 <= i < a1.len() implies #[trigger] a1[i].0@ == b1[i].0@ && a1[i].1.0@
            == b1[i].1.0@ by {
            assert(a1[i] == a[i] && b1[i] == b[i]);
        }
        law_host_lines_ignore_delays(a1, b1);
        assert(a[a.len() - 1].0@ == b[b.len() - 1].0@);
    }
}

/// The hosts-file lines of the answers (domain, (address, delay)), in order.
pub fn host_entries(answers: &Vec<(String, (String, u32))>) -> (r: String)
    ensures
        r@ == host_lines(answers@),
{
    let mut r = String::new();
    let mut i: usize = 0;
    while i < answers.len()
        invariant
            i <= answers@.len(),
            r@ == host_lines(answers@.take(i as int)),
        decreases answers.len() - i,
    {
        let ghost before = r@;
        r.append(answers[i].1.0.as_str());
        r.append("\t\t");
        r.append(answers[i].0.as_str());
        r.append("\n");
        assert(answers@.take(i + 1).drop_last() =~= answers@.take(i as int));
        assert(r@ =~= before + host_line(answers@[i as int].0@, answers@[i as int].1.0@));
        i = i + 1;
    }
    assert(answers@.take(answers@.len() as int) =~= answers@);
    r
}

/// The hosts file: the template with the entries in place of `{}`, then the
/// time in place of `{time}`.
pub fn render_hosts(entries: &str, time: &str) -> (r: String)
    ensures
        r@ == replace(replace(HOSTS_TEMPLATE@, "{}"@, entries@), "{time}"@, time@),
{
    let with_entries = replace_all(HOSTS_TEMPLATE, "{}", entries);
    replace_all(with_entries.as_str(), "{time}", time)
}


/// The text of the update time for the Unix time `unix_secs` (UTC),
/// eight hours later, written `%Y-%m-%d %H:%M:%S`; `None` where that time
/// is out of chrono's range.
pub uninterp spec fn update_time_text(unix_secs: i64) -> Option<Seq<char>>;

/// chrono: `DateTime::from_timestamp(unix_secs, 0)`, moved on by
/// `checked_add_signed(TimeDelta::hours(8))`, written with
/// `format("%Y-%m-%d %H:%M:%S")`. Claimed: the text is `update_time_text`
/// of the seconds, a function of them alone (the offset is fixed, so no
/// time zone of the machine is read).
#[verifier::external_body]
fn format_update_time(unix_secs: i64) -> (r: Option<String>)
    ensures
        match r {
            Some(t) => update_time_text(unix_secs) == Some(t@),
            None => update_time_text(unix_secs) is None,
        },
{
    let time = DateTime::from_timestamp(unix_secs, 0)?.checked_add_signed(TimeDelta::hours(8))?;
    Some(time.format("%Y-%m-%d %H:%M:%S").to_string())
}

/// The update time written into the hosts file for the Unix time
/// `unix_secs`: `update_time_text`.
pub fn update_time(unix_secs: i64) -> (r: Option<String>)
    ensures
        match r {
            Some(t) => update_time_text(unix_secs) == Some(t@),
            None => update_time_text(unix_secs) is None,
        },
{
    format_update_time(unix_secs)
}

} // verus!
