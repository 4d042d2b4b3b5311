//! The table of resolved domains and measured delays, and the choice of
//! one address per domain.

use vstd::prelude::*;

use crate::keyed::{
    keyed_map, lemma_keyed_congruent, lemma_keyed_insert, lemma_keyed_len, lemma_keyed_map, lemma_keyed_update, lemma_sorted_insert,
    lemma_sorted_unique, lemma_sorted_update, sorted_keys, unique_keys,
};
use crate::text::{lemma_seq_lt_total, lemma_seq_lt_transitive, seq_lt, str_lt};

verus! {

/// The texts of a list of strings.
pub open spec fn strs(v: Seq<String>) -> Seq<Seq<char>> {
    v.map_values(|s: String| s@)
}

/// What an `Executor` holds: the addresses found for each domain, and the
/// delay last recorded for each address.
pub struct ExecutorView {
    pub domains: Map<Seq<char>, Seq<Seq<char>>>,
    pub delays: Map<Seq<char>, u32>,
}

/// Resolves domains, measures how long their addresses take to answer and
/// picks one address per domain.
#[derive(Debug)]
pub struct Executor {
    domains: Vec<(String, Vec<String>)>,
    time_delays: Vec<(String, u32)>,
}

/// The delay recorded for an address that has not been measured yet.
pub const UNMEASURED: u32 = 0xffff_ffffu32;

/// The delay recorded for an address whose connection attempt timed out.
pub const TIMED_OUT: u32 = 0xffff_fffeu32;

/// The delay recorded for an address whose connection attempt failed.
pub const UNREACHABLE: u32 = 0xffff_fffdu32;

pub open spec fn domains_of(s: Seq<(String, Vec<String>)>) -> Map<Seq<char>, Seq<Seq<char>>> {
    keyed_map(s, |v: Vec<String>| strs(v@))
}

pub open spec fn delays_of(s: Seq<(String, u32)>) -> Map<Seq<char>, u32> {
    keyed_map(s, |d: u32| d)
}

impl View for Executor {
    type V = ExecutorView;

    closed spec fn view(&self) -> ExecutorView {
        ExecutorView { domains: domains_of(self.domains@), delays: delays_of(self.time_delays@) }
    }
}

/// `delays` after recording every address of `ips` as not measured yet.
pub open spec fn with_unmeasured(delays: Map<Seq<char>, u32>, ips: Seq<Seq<char>>) -> Map<
    Seq<char>,
    u32,
> {
    Map::new(
        |k: Seq<char>| delays.contains_key(k) || ips.contains(k),
        |k: Seq<char>|
            if ips.contains(k) {
                UNMEASURED
            } else {
                delays[k]
            },
    )
}

/// The address of `ips` chosen for its domain: among the addresses with a
/// recorded delay, one with the greatest delay, and of several such the
/// last in `ips`; `None` when no address has a recorded delay.
pub open spec fn best_of(ips: Seq<Seq<char>>, delays: Map<Seq<char>, u32>) -> Option<(Seq<char>, u32)>
    decreases ips.len(),
{
    if ips.len() == 0 {
        None
    } else {
        let rest = best_of(ips.drop_last(), delays);
        let ip = ips.last();
        if delays.contains_key(ip) && (rest is None || delays[ip] >= rest->Some_0.1) {
            Some((ip, delays[ip]))
        } else {
            rest
        }
    }
}

/// The answer for every domain: its chosen address and that address's
/// delay; domains none of whose addresses has a recorded delay are left out.
pub open spec fn answers(v: ExecutorView) -> Map<Seq<char>, (Seq<char>, u32)> {
    Map::new(
        |d: Seq<char>| v.domains.contains_key(d) && best_of(v.domains[d], v.delays) is Some,
        |d: Seq<char>| best_of(v.domains[d], v.delays)->Some_0,
    )
}

/// Reads an answer list as a map from domain to (address, delay).
pub open spec fn answer_map(s: Seq<(String, (String, u32))>) -> Map<Seq<char>, (Seq<char>, u32)> {
    keyed_map(s, |a: (String, u32)| (a.0@, a.1))
}

impl Executor {
    /// The table is well formed: domains sorted by name, each address once.
    #[verifier::type_invariant]
    spec fn wf(&self) -> bool {
        &&& sorted_keys(self.domains@)
        &&& unique_keys(self.time_delays@)
    }

    /// An executor that knows no domain and no address.
    pub fn new() -> (r: Self)
        ensures
            r@.domains == Map::<Seq<char>, Seq<Seq<char>>>::empty(),
            r@.delays == Map::<Seq<char>, u32>::empty(),
    {
        let r = Executor { domains: Vec::new(), time_delays: Vec::new() };
        assert(r@.domains =~= Map::<Seq<char>, Seq<Seq<char>>>::empty());
        assert(r@.delays =~= Map::<Seq<char>, u32>::empty());
        r
    }

    fn delay_index(&self, ip: &String) -> (r: Option<usize>)
        ensures
            match r {
                Some(i) => i < self.time_delays@.len() && self.time_delays@[i as int].0@ == ip@,
                None => forall|i: int|
                    0 <= i < self.time_delays@.len() ==> self.time_delays@[i].0@ != ip@,
            },
    {
        let mut i: usize = 0;
        while i < self.time_delays.len()
            invariant
                i <= self.time_delays@.len(),
                forall|j: int| 0 <= j < i ==> self.time_delays@[j].0@ != ip@,
            decreases self.time_delays.len() - i,
        {
            if self.time_delays[i].0 == *ip {
                return Some(i);
            }
            i = i + 1;
        }
        None
    }

    /// The delay recorded for the address `ip`, if any.
    pub fn delay_of(&self, ip: &String) -> (r: Option<u32>)
        ensures
            r == (if self@.delays.contains_key(ip@) {
                Some(self@.delays[ip@])
            } else {
                None
            }),
    {
        proof {
            use_type_invariant(self);
            lemma_keyed_map(self.time_delays@, |d: u32| d);
        }
        match self.delay_index(ip) {
            Some(i) => Some(self.time_delays[i].1),
            None => None,
        }
    }

    /// Records `delay` for `ip`, adding the address if it is new.
    fn set_delay(&mut self, ip: String, delay: u32)
        ensures
            final(self)@.delays == old(self)@.delays.insert(ip@, delay),
            final(self)@.domains == old(self)@.domains,
    {
        proof {
            use_type_invariant(&*self);
        }
        let found = self.delay_index(&ip);
        let mut t: Vec<(String, u32)> = Vec::new();
        std::mem::swap(&mut t, &mut self.time_delays);
        match found {
            Some(i) => {
                proof {
                    lemma_keyed_update(t@, i as int, (ip, delay), |d: u32| d);
                }
                t.set(i, (ip, delay));
            },
            None => {
                let ghost n = t@.len();
                proof {
                    lemma_keyed_insert(t@, n as int, (ip, delay), |d: u32| d);
                    assert(t@.insert(n as int, (ip, delay)) =~= t@.push((ip, delay)));
                }
                t.push((ip, delay));
            },
        }
        self.time_delays = t;
    }

    /// Replaces the delay recorded for `ip` by `delay`; an address that has
    /// no recorded delay stays without one.
    pub fn record_delay(&mut self, ip: &String, delay: u32)
        ensures
            final(self)@.domains == old(self)@.domains,
            final(self)@.delays == (if old(self)@.delays.contains_key(ip@) {
                old(self)@.delays.insert(ip@, delay)
            } else {
                old(self)@.delays
            }),
    {
        proof {
            use_type_invariant(&*self);
            lemma_keyed_map(self.time_delays@, |d: u32| d);
        }
        match self.delay_index(ip) {
            Some(i) => {
                let key = self.time_delays[i].0.clone();
                let mut t: Vec<(String, u32)> = Vec::new();
                std::mem::swap(&mut t, &mut self.time_delays);
                proof {
                    lemma_keyed_update(t@, i as int, (key, delay), |d: u32| d);
                }
                t.set(i, (key, delay));
                self.time_delays = t;
            },
            None => {},
        }
    }
}


impl Executor {
    /// Records `ips` as the addresses of `domain`, replacing what was
    /// recorded for it; the domains stay sorted.
    fn set_domain(&mut self, domain: String, ips: Vec<String>)
        ensures
            final(self)@.domains == old(self)@.domains.insert(domain@, strs(ips@)),
            final(self)@.delays == old(self)@.delays,
    {
        proof {
            use_type_invariant(&*self);
        }
        let mut p: usize = 0;
        while p < self.domains.len() && str_lt(self.domains[p].0.as_str(), domain.as_str())
            invariant
                p <= self.domains@.len(),
                forall|j: int| 0 <= j < p ==> seq_lt(#[trigger] self.domains@[j].0@, domain@),
            decreases self.domains.len() - p,
        {
            p = p + 1;
        }
        if p < self.domains.len() && self.domains[p].0 == domain {
            proof {
                lemma_sorted_unique(self.domains@);
                lemma_keyed_update(self.domains@, p as int, (domain, ips), |v: Vec<String>| strs(v@));
                lemma_sorted_update(self.domains@, p as int, (domain, ips));
            }
            let mut ds: Vec<(String, Vec<String>)> = Vec::new();
            std::mem::swap(&mut ds, &mut self.domains);
            ds.set(p, (domain, ips));
            self.domains = ds;
        } else {
            proof {
                assert forall|j: int| p <= j < self.domains@.len() implies seq_lt(
                    domain@,
                    #[trigger] self.domains@[j].0@,
                ) by {
                    let kp = self.domains@[p as int].0@;
                    lemma_seq_lt_total(kp, domain@);
                    if j > p {
                        lemma_seq_lt_transitive(domain@, kp, self.domains@[j].0@);
                    }
                }
                lemma_sorted_insert(self.domains@, p as int, (domain, ips));
                lemma_sorted_unique(self.domains@);
                lemma_keyed_insert(self.domains@, p as int, (domain, ips), |v: Vec<String>| strs(v@));
            }
            let mut ds: Vec<(String, Vec<String>)> = Vec::new();
            std::mem::swap(&mut ds, &mut self.domains);
            ds.insert(p, (domain, ips));
            self.domains = ds;
        }
    }

    /// Records a resolved domain: every address of `ips` is recorded as not
    /// measured yet (forgetting an earlier measurement), and `ips` become
    /// the addresses of `domain`.
    pub fn record_resolved(&mut self, domain: String, ips: Vec<String>)
        ensures
            final(self)@.domains == old(self)@.domains.insert(domain@, strs(ips@)),
            final(self)@.delays == with_unmeasured(old(self)@.delays, strs(ips@)),
    {
        let ghost before = self@.delays;
        let mut i: usize = 0;
        while i < ips.len()
            invariant
                i <= ips@.len(),
                self@.domains == old(self)@.domains,
                before == old(self)@.delays,
                self@.delays == with_unmeasured(before, strs(ips@).take(i as int)),
            decreases ips.len() - i,
        {
            self.set_delay(ips[i].clone(), UNMEASURED);
            let ghost prev = strs(ips@).take(i as int);
            let ghost next = strs(ips@).take(i + 1);
            assert(next =~= prev.push(ips@[i as int]@));
            assert forall|k: Seq<char>| next.contains(k) <==> prev.contains(k) || k == ips@[i as int]@ by {
                if next.contains(k) {
                    let j = choose|j: int| 0 <= j < next.len() && next[j] == k;
                    if j < prev.len() {
                        assert(prev[j] == k);
                    }
                }
                if prev.contains(k) {
                    let j = choose|j: int| 0 <= j < prev.len() && prev[j] == k;
                    assert(next[j] == k);
                }
                if k == ips@[i as int]@ {
                    assert(next[i as int] == k);
                }
            }
            assert(self@.delays =~= with_unmeasured(before, next));
            i = i + 1;
        }
        assert(strs(ips@).take(ips@.len() as int) =~= strs(ips@));
        self.set_domain(domain, ips);
    }
}


impl Executor {
    /// The chosen address of `ips`: `best_of`, computed.
    fn best_address(&self, ips: &Vec<String>) -> (r: Option<(usize, u32)>)
        ensures
            match r {
                None => best_of(strs(ips@), self@.delays) is None,
                Some((k, d)) => k < ips@.len() && best_of(strs(ips@), self@.delays) == Some(
                    (ips@[k as int]@, d),
                ),
            },
    {
        let ghost v = strs(ips@);
        let mut best: Option<(usize, u32)> = None;
        let mut j: usize = 0;
        while j < ips.len()
            invariant
                j <= ips@.len(),
                v == strs(ips@),
                match best {
                    None => best_of(v.take(j as int), self@.delays) is None,
                    Some((k, d)) => k < j && best_of(v.take(j as int), self@.delays) == Some(
                        (ips@[k as int]@, d),
                    ),
                },
            decreases ips.len() - j,
        {
            assert(v.take(j + 1).drop_last() =~= v.take(j as int));
            assert(v.take(j + 1).last() == ips@[j as int]@);
            match self.delay_of(&ips[j]) {
                Some(d) => {
                    let better = match best {
                        None => true,
                        Some((_, e)) => d >= e,
                    };
                    if better {
                        best = Some((j, d));
                    }
                },
                None => {},
            }
            j = j + 1;
        }
        assert(v.take(ips@.len() as int) =~= v);
        best
    }

    /// For every domain, in increasing order of name, the chosen address and
    /// its delay (see `best_of`); domains with no measured address are left
    /// out.
    pub fn best_answer(&self) -> (r: Vec<(String, (String, u32))>)
        ensures
            sorted_keys(r@),
            answer_map(r@) == answers(self@),
            answers(self@).dom().finite(),
            r@.len() == answers(self@).dom().len(),
    {
        let ghost ds = self.domains@;
        let ghost g = |a: (String, u32)| (a.0@, a.1);
        proof {
            use_type_invariant(self);
            lemma_sorted_unique(ds);
            lemma_keyed_map(ds, |v: Vec<String>| strs(v@));
        }
        let mut out: Vec<(String, (String, u32))> = Vec::new();
        let mut i: usize = 0;
        while i < self.domains.len()
            invariant
                ds == self.domains@,
                sorted_keys(ds),
                i <= ds.len(),
                forall|k: int| 0 <= k < ds.len() ==> #[trigger] self@.domains[ds[k].0@] == strs(ds[k].1@),
                forall|k: int| 0 <= k < ds.len() ==> #[trigger] self@.domains.contains_key(ds[k].0@),
                sorted_keys(out@),
                forall|a: int|
                    0 <= a < out@.len() ==> exists|k: int|
                        0 <= k < i && #[trigger] out@[a].0@ == ds[k].0@,
                forall|d: Seq<char>| #[trigger]
                    answer_map(out@).contains_key(d) <==> (exists|k: int|
                        0 <= k < i && ds[k].0@ == d) && answers(self@).contains_key(d),
                forall|d: Seq<char>| #[trigger]
                    answer_map(out@).contains_key(d) ==> answer_map(out@)[d] == answers(self@)[d],
            decreases self.domains.len() - i,
        {
            let ghost key = ds[i as int].0@;
            match self.best_address(&self.domains[i].1) {
                Some((k, d)) => {
                    let entry = (self.domains[i].0.clone(), (self.domains[i].1[k].clone(), d));
                    proof {
                        assert forall|a: int| 0 <= a < out@.len() implies seq_lt(
                            #[trigger] out@[a].0@,
                            entry.0@,
                        ) by {
                            let k2 = choose|k2: int| 0 <= k2 < i && out@[a].0@ == ds[k2].0@;
                            assert(seq_lt(ds[k2].0@, ds[i as int].0@));
                        }
                        lemma_sorted_insert(out@, out@.len() as int, entry);
                        assert(out@.insert(out@.len() as int, entry) =~= out@.push(entry));
                    }
                    let ghost old_out = out@;
                    out.push(entry);
                    proof {
                        assert(out@.drop_last() =~= old_out);
                        assert(answer_map(out@) == answer_map(old_out).insert(key, (entry.1.0@, d)));
                        assert(answers(self@).contains_key(key));
                        assert forall|d2: Seq<char>| #[trigger]
                            answer_map(out@).contains_key(d2) <==> (exists|k2: int|
                                0 <= k2 < i + 1 && ds[k2].0@ == d2) && answers(self@).contains_key(d2) by {
                            if d2 == key {
                                assert(ds[i as int].0@ == d2);
                            } else if (exists|k2: int| 0 <= k2 < i + 1 && ds[k2].0@ == d2) {
                                let k2 = choose|k2: int| 0 <= k2 < i + 1 && ds[k2].0@ == d2;
                                assert(k2 < i);
                            }
                        }
                        assert forall|a: int| 0 <= a < out@.len() implies exists|k2: int|
                            0 <= k2 < i + 1 && #[trigger] out@[a].0@ == ds[k2].0@ by {
                            if a < old_out.len() {
                                assert(out@[a] == old_out[a]);
                                let k2 = choose|k2: int| 0 <= k2 < i && old_out[a].0@ == ds[k2].0@;
                                assert(out@[a].0@ == ds[k2].0@);
                            } else {
                                assert(out@[a].0@ == ds[i as int].0@);
                            }
                        }
                    }
                },
                None => {
                    proof {
                        assert(!answers(self@).contains_key(key));
                        assert forall|d2: Seq<char>| #[trigger]
                            answer_map(out@).contains_key(d2) <==> (exists|k2: int|
                                0 <= k2 < i + 1 && ds[k2].0@ == d2) && answers(self@).contains_key(d2) by {
                            if (exists|k2: int| 0 <= k2 < i + 1 && ds[k2].0@ == d2) && d2 != key {
                                let k2 = choose|k2: int| 0 <= k2 < i + 1 && ds[k2].0@ == d2;
                                assert(k2 < i);
                            }
                        }
                    }
                },
            }
            i = i + 1;
        }
        proof {
            assert forall|d: Seq<char>| #[trigger] answers(self@).contains_key(d) implies exists|k: int|
                0 <= k < ds.len() && ds[k].0@ == d by {}
            assert(answer_map(out@) =~= answers(self@));
            lemma_sorted_unique(out@);
            lemma_keyed_len(out@, |a: (String, u32)| (a.0@, a.1));
        }
        out
    }
}


fn clone_strings(v: &Vec<String>) -> (r: Vec<String>)
    ensures
        r@ == v@,
{
    let mut r: Vec<String> = Vec::new();
    let mut i: usize = 0;
    while i < v.len()
        invariant
            i <= v@.len(),
            r@ == v@.take(i as int),
        decreases v.len() - i,
    {
        r.push(v[i].clone());
        assert(v@.take(i + 1) =~= v@.take(i as int).push(v@[i as int]));
        i = i + 1;
    }
    assert(v@.take(v@.len() as int) =~= v@);
    r
}

impl Clone for Executor {
    /// A copy holding the same domains, addresses and delays.
    fn clone(&self) -> (r: Self)
        ensures
            r@ == self@,
    {
        proof {
            use_type_invariant(self);
        }
        let mut domains: Vec<(String, Vec<String>)> = Vec::new();
        let mut i: usize = 0;
        while i < self.domains.len()
            invariant
                i <= self.domains@.len(),
                domains@.len() == i,
                forall|k: int|
                    0 <= k < i ==> #[trigger] domains@[k].0 == self.domains@[k].0 && domains@[k].1@
                        == self.domains@[k].1@,
            decreases self.domains.len() - i,
        {
            domains.push((self.domains[i].0.clone(), clone_strings(&self.domains[i].1)));
            i = i + 1;
        }
        proof {
            lemma_keyed_congruent(domains@, self.domains@, |v: Vec<String>| strs(v@));
            assert forall|a: int, b: int| 0 <= a < b < domains@.len() implies seq_lt(
                domains@[a].0@,
                domains@[b].0@,
            ) by {
                assert(domains@[a].0 == self.domains@[a].0 && domains@[b].0 == self.domains@[b].0);
            }
        }
        let mut time_delays: Vec<(String, u32)> = Vec::new();
        let mut j: usize = 0;
        while j < self.time_delays.len()
            invariant
                j <= self.time_delays@.len(),
                time_delays@ == self.time_delays@.take(j as int),
            decreases self.time_delays.len() - j,
        {
            time_delays.push((self.time_delays[j].0.clone(), self.time_delays[j].1));
            assert(self.time_delays@.take(j + 1) =~= self.time_delays@.take(j as int).push(
                self.time_delays@[j as int],
            ));
            j = j + 1;
        }
        assert(self.time_delays@.take(self.time_delays@.len() as int) =~= self.time_delays@);
        Executor { domains, time_delays }
    }
}

impl Default for Executor {
    fn default() -> (r: Self)
        ensures
            r@.domains == Map::<Seq<char>, Seq<Seq<char>>>::empty(),
            r@.delays == Map::<Seq<char>, u32>::empty(),
    {
        Executor::new()
    }
}

/// How the resolution of one domain ended.
pub enum Resolution {
    /// The domain resolved to these addresses.
    Resolved(String, Vec<String>),
    /// Every attempt failed.
    Failed,
}

/// How one connection attempt to an address ended.
pub enum ProbeOutcome {
    /// Connected after this many microseconds.
    Connected(u128),
    /// The connection attempt failed.
    Failed,
    /// The connection attempt did not finish in time.
    TimedOut,
}

/// The delay recorded for a connection attempt: the microseconds it took,
/// kept modulo 2^32, or the mark of a failure or a timeout.
pub open spec fn delay_code(outcome: ProbeOutcome) -> u32 {
    match outcome {
        ProbeOutcome::Connected(micros) => (micros % 0x1_0000_0000) as u32,
        ProbeOutcome::Failed => UNREACHABLE,
        ProbeOutcome::TimedOut => TIMED_OUT,
    }
}

/// The delay recorded for a connection attempt: `delay_code`.
pub fn probe_delay(outcome: ProbeOutcome) -> (r: u32)
    ensures
        r == delay_code(outcome),
        match outcome {
            ProbeOutcome::Connected(micros) => r == micros % 0x1_0000_0000,
            ProbeOutcome::Failed => r == UNREACHABLE,
            ProbeOutcome::TimedOut => r == TIMED_OUT,
        },
{
    match outcome {
        ProbeOutcome::Connected(micros) => (micros % 0x1_0000_0000u128) as u32,
        ProbeOutcome::Failed => UNREACHABLE,
        ProbeOutcome::TimedOut => TIMED_OUT,
    }
}

/// The address and port probed for an address: `ip` followed by `:443`.
pub fn probe_address(ip: &str) -> (r: String)
    ensures
        r@ == ip@ + ":443"@,
{
    let mut r = ip.to_owned();
    r.append(":443");
    r
}

/// The number of failed attempts after which a domain is given up.
pub const MAX_FAILURES: u32 = 4;

/// The pause before another attempt, in milliseconds.
pub const RETRY_PAUSE_MS: u64 = 500;

/// What to do after an attempt to resolve a domain failed.
pub enum RetryStep {
    /// Wait `pause_ms` milliseconds and try again; `failures` attempts have
    /// failed so far.
    Retry { failures: u32, pause_ms: u64 },
    /// Give the domain up.
    GiveUp,
}

/// The step after one more failed attempt: give up once `MAX_FAILURES`
/// attempts have failed, else pause `RETRY_PAUSE_MS` and try again.
pub open spec fn retry_step(failures: u32) -> RetryStep {
    if failures + 1 >= MAX_FAILURES {
        RetryStep::GiveUp
    } else {
        RetryStep::Retry { failures: (failures + 1) as u32, pause_ms: RETRY_PAUSE_MS }
    }
}

/// The step after one more failed attempt, `failures` attempts having
/// failed before it: a domain is tried at most `MAX_FAILURES` times, with a
/// pause of `RETRY_PAUSE_MS` between attempts.
pub fn after_failure(failures: u32) -> (r: RetryStep)
    ensures
        r == retry_step(failures),
        failures + 1 >= MAX_FAILURES ==> r == RetryStep::GiveUp,
        failures + 1 < MAX_FAILURES ==> r == (RetryStep::Retry {
            failures: (failures + 1) as u32,
            pause_ms: RETRY_PAUSE_MS,
        }),
{
    if failures >= MAX_FAILURES - 1 {
        RetryStep::GiveUp
    } else {
        RetryStep::Retry { failures: failures + 1, pause_ms: RETRY_PAUSE_MS }
    }
}

impl Executor {
    /// Takes in the outcome of one domain's resolution. A resolved domain is
    /// recorded (see `record_resolved`) and the caller goes on; at the first
    /// failure nothing is recorded and the caller stops taking outcomes in.
    pub fn absorb(&mut self, outcome: Resolution) -> (go_on: bool)
        ensures
            match outcome {
                Resolution::Resolved(domain, ips) => {
                    &&& go_on
                    &&& final(self)@.domains == old(self)@.domains.insert(domain@, strs(ips@))
                    &&& final(self)@.delays == with_unmeasured(old(self)@.delays, strs(ips@))
                },
                Resolution::Failed => !go_on && final(self)@ == old(self)@,
            },
    {
        match outcome {
            Resolution::Resolved(domain, ips) => {
                self.record_resolved(domain, ips);
                true
            },
            Resolution::Failed => false,
        }
    }

    /// Every address with a recorded delay, each once.
    pub fn probe_targets(&self) -> (r: Vec<String>)
        ensures
            strs(r@).no_duplicates(),
            forall|k: Seq<char>| strs(r@).contains(k) <==> self@.delays.contains_key(k),
    {
        let ghost t = self.time_delays@;
        proof {
            use_type_invariant(self);
            lemma_keyed_map(t, |d: u32| d);
        }
        let mut r: Vec<String> = Vec::new();
        let mut i: usize = 0;
        while i < self.time_delays.len()
            invariant
                t == self.time_delays@,
                i <= t.len(),
                r@.len() == i,
                forall|j: int| 0 <= j < i ==> #[trigger] r@[j]@ == t[j].0@,
            decreases self.time_delays.len() - i,
        {
            r.push(self.time_delays[i].0.clone());
            i = i + 1;
        }
        proof {
            let v = strs(r@);
            assert forall|a: int, b: int| 0 <= a < v.len() && 0 <= b < v.len() && a != b implies v[a]
                != v[b] by {
                if a < b {
                    assert(t[a].0@ != t[b].0@);
                } else {
                    assert(t[b].0@ != t[a].0@);
                }
            }
            assert forall|k: Seq<char>| v.contains(k) <==> self@.delays.contains_key(k) by {
                if v.contains(k) {
                    let j = choose|j: int| 0 <= j < v.len() && v[j] == k;
                    assert(t[j].0@ == k);
                }
                if self@.delays.contains_key(k) {
                    let j = choose|j: int| 0 <= j < t.len() && t[j].0@ == k;
                    assert(v[j] == k);
                }
            }
        }
        r
    }
}


/// The address chosen for a domain is one of its addresses that has a
/// recorded delay; no address of the domain has a greater delay, and no
/// later one has the same delay. No address is chosen exactly when none
/// has a recorded delay.
pub proof fn law_chosen_address(ips: Seq<Seq<char>>, delays: Map<Seq<char>, u32>)
    ensures
        match best_of(ips, delays) {
            Some((ip, d)) => exists|k: int|
                0 <= k < ips.len() && ips[k] == ip && {
                    &&& delays.contains_key(ip)
                    &&& delays[ip] == d
                    &&& forall|j: int|
                        0 <= j < ips.len() && delays.contains_key(#[trigger] ips[j])
                            ==> delays[ips[j]] <= d
                    &&& forall|j: int|
                        k < j < ips.len() && delays.contains_key(#[trigger] ips[j])
                            ==> delays[ips[j]] < d
                },
            None => forall|j: int| 0 <= j < ips.len() ==> !delays.contains_key(#[trigger] ips[j]),
        },
    decreases ips.len(),
{
    if ips.len() > 0 {
        let t = ips.drop_last();
        let n = ips.len() - 1;
        law_chosen_address(t, delays);
        assert forall|j: int| 0 <= j < n implies #[trigger] ips[j] == t[j] by {}
        match best_of(t, delays) {
            Some((ip0, d0)) => {
                let k0 = choose|k: int|
                    0 <= k < t.len() && t[k] == ip0 && {
                        &&& delays.contains_key(ip0)
                        &&& delays[ip0] == d0
                        &&& forall|j: int|
                            0 <= j < t.len() && delays.contains_key(#[trigger] t[j])
                                ==> delays[t[j]] <= d0
                        &&& forall|j: int|
                            k < j < t.len() && delays.contains_key(#[trigger] t[j])
                                ==> delays[t[j]] < d0
                    };
                if delays.contains_key(ips[n]) && delays[ips[n]] >= d0 {
                    assert(ips[n] == ips.last());
                    assert forall|j: int|
                        0 <= j < ips.len() && delays.contains_key(#[trigger] ips[j]) implies delays[ips[j]]
                        <= delays[ips[n]] by {
                        if j < n {
                            assert(ips[j] == t[j]);
                        }
                    }
                } else {
                    assert(ips[k0] == ip0);
                    assert forall|j: int|
                        0 <= j < ips.len() && delays.contains_key(#[trigger] ips[j]) implies delays[ips[j]]
                        <= d0 by {
                        if j < n {
                            assert(ips[j] == t[j]);
                        }
                    }
                    assert forall|j: int|
                        k0 < j < ips.len() && delays.contains_key(#[trigger] ips[j]) implies delays[ips[j]]
                        < d0 by {
                        if j < n {
                            assert(ips[j] == t[j]);
                        }
                    }
                }
            },
            None => {
                if delays.contains_key(ips[n]) {
                    assert(ips[n] == ips.last());
                    assert forall|j: int|
                        0 <= j < ips.len() && delays.contains_key(#[trigger] ips[j]) implies delays[ips[j]]
                        <= delays[ips[n]] by {
                        if j < n {
                            assert(ips[j] == t[j]);
                        }
                    }
                } else {
                    assert forall|j: int| 0 <= j < ips.len() implies !delays.contains_key(
                        #[trigger] ips[j],
                    ) by {
                        if j < n {
                            assert(ips[j] == t[j]);
                        }
                    }
                }
            },
        }
    }
}

/// Right after a domain is resolved to a non-empty list of addresses, its
/// answer is the last of those addresses, at the not-measured delay.
pub proof fn law_fresh_domain_answer(v: ExecutorView, domain: Seq<char>, ips: Seq<Seq<char>>)
    requires
        ips.len() > 0,
    ensures
        answers(
            ExecutorView {
                domains: v.domains.insert(domain, ips),
                delays: with_unmeasured(v.delays, ips),
            },
        ).contains_key(domain),
        answers(
            ExecutorView {
                domains: v.domains.insert(domain, ips),
                delays: with_unmeasured(v.delays, ips),
            },
        )[domain] == (ips.last(), UNMEASURED),
{
    let delays = with_unmeasured(v.delays, ips);
    assert(ips.contains(ips.last())) by {
        assert(ips[ips.len() - 1] == ips.last());
    }
    assert(delays.contains_key(ips.last()) && delays[ips.last()] == UNMEASURED);
}


/// Every address of every domain has a recorded delay.
pub open spec fn addresses_recorded(v: ExecutorView) -> bool {
    forall|d: Seq<char>, i: int|
        v.domains.contains_key(d) && 0 <= i < v.domains[d].len() ==> v.delays.contains_key(
            #[trigger] v.domains[d][i],
        )
}

/// Recording a resolved domain keeps every address of every domain with a
/// recorded delay.
pub proof fn law_resolved_keeps_addresses_recorded(
    v: ExecutorView,
    domain: Seq<char>,
    ips: Seq<Seq<char>>,
)
    requires
        addresses_recorded(v),
    ensures
        addresses_recorded(
            ExecutorView {
                domains: v.domains.insert(domain, ips),
                delays: with_unmeasured(v.delays, ips),
            },
        ),
{
    let w = ExecutorView {
        domains: v.domains.insert(domain, ips),
        delays: with_unmeasured(v.delays, ips),
    };
    assert forall|d: Seq<char>, i: int|
        w.domains.contains_key(d) && 0 <= i < w.domains[d].len() implies w.delays.contains_key(
        #[trigger] w.domains[d][i],
    ) by {
        if d == domain {
            assert(ips.contains(ips[i]));
        } else {
            assert(v.delays.contains_key(v.domains[d][i]));
        }
    }
}

/// Recording a measured delay keeps every address of every domain with a
/// recorded delay.
pub proof fn law_measured_keeps_addresses_recorded(v: ExecutorView, ip: Seq<char>, delay: u32)
    requires
        addresses_recorded(v),
    ensures
        addresses_recorded(
            ExecutorView {
                domains: v.domains,
                delays: if v.delays.contains_key(ip) {
                    v.delays.insert(ip, delay)
                } else {
                    v.delays
                },
            },
        ),
{
}

/// When every address has a recorded delay, every domain with at least one
/// address is answered, and no other.
pub proof fn law_every_domain_answered(v: ExecutorView)
    requires
        addresses_recorded(v),
    ensures
        forall|d: Seq<char>|
            #[trigger] answers(v).contains_key(d) <==> v.domains.contains_key(d)
                && v.domains[d].len() > 0,
{
    assert forall|d: Seq<char>|
        #[trigger] answers(v).contains_key(d) <==> v.domains.contains_key(d) && v.domains[d].len()
            > 0 by {
        if v.domains.contains_key(d) {
            law_chosen_address(v.domains[d], v.delays);
            if v.domains[d].len() > 0 {
                assert(v.delays.contains_key(v.domains[d][0]));
            }
        }
    }
}


/// `best_of` does not look at the delay of an address that is not listed.
pub proof fn lemma_best_of_unlisted(
    ips: Seq<Seq<char>>,
    delays: Map<Seq<char>, u32>,
    ip: Seq<char>,
    t: u32,
)
    requires
        !ips.contains(ip),
    ensures
        best_of(ips, delays.insert(ip, t)) == best_of(ips, delays),
    decreases ips.len(),
{
    if ips.len() > 0 {
        let u = ips.drop_last();
        if u.contains(ip) {
            let j = choose|j: int| 0 <= j < u.len() && u[j] == ip;
            assert(ips[j] == ip);
        }
        assert(ips[ips.len() - 1] == ips.last());
        lemma_best_of_unlisted(u, delays, ip, t);
    }
}

/// The delay recorded for an address that no domain lists never changes
/// any answer.
pub proof fn law_unlisted_delay_irrelevant(v: ExecutorView, ip: Seq<char>, t: u32)
    requires
        forall|d: Seq<char>| #[trigger] v.domains.contains_key(d) ==> !v.domains[d].contains(ip),
    ensures
        answers(ExecutorView { domains: v.domains, delays: v.delays.insert(ip, t) }) == answers(v),
{
    let w = ExecutorView { domains: v.domains, delays: v.delays.insert(ip, t) };
    assert forall|d: Seq<char>| v.domains.contains_key(d) implies best_of(v.domains[d], w.delays)
        == best_of(v.domains[d], v.delays) by {
        lemma_best_of_unlisted(v.domains[d], v.delays, ip, t);
    }
    assert(answers(w) =~= answers(v));
}

/// Every recorded delay is the not-measured mark.
pub open spec fn all_unmeasured(delays: Map<Seq<char>, u32>) -> bool {
    forall|k: Seq<char>| #[trigger] delays.contains_key(k) ==> delays[k] == UNMEASURED
}

/// Recording a resolved domain keeps every delay at the not-measured mark
/// when all were.
pub proof fn law_resolved_keeps_unmeasured(delays: Map<Seq<char>, u32>, ips: Seq<Seq<char>>)
    requires
        all_unmeasured(delays),
    ensures
        all_unmeasured(with_unmeasured(delays, ips)),
{
}

/// While no address has been measured, every domain with at least one
/// address is answered with its last address at the not-measured delay.
pub proof fn law_unmeasured_answers(v: ExecutorView)
    requires
        addresses_recorded(v),
        all_unmeasured(v.delays),
    ensures
        forall|d: Seq<char>|
            #[trigger] answers(v).contains_key(d) <==> v.domains.contains_key(d)
                && v.domains[d].len() > 0,
        forall|d: Seq<char>|
            #[trigger] answers(v).contains_key(d) ==> answers(v)[d] == (
                v.domains[d].last(),
                UNMEASURED,
            ),
{
    law_every_domain_answered(v);
    assert forall|d: Seq<char>| #[trigger] answers(v).contains_key(d) implies answers(v)[d] == (
        v.domains[d].last(),
        UNMEASURED,
    ) by {
        let ips = v.domains[d];
        assert(v.delays.contains_key(ips[ips.len() - 1]));
        assert(ips[ips.len() - 1] == ips.last());
        law_chosen_address(ips.drop_last(), v.delays);
    }
}

/// The table after recording the resolutions `rs` in order, each a domain
/// and its addresses.
pub open spec fn after_resolving(
    v: ExecutorView,
    rs: Seq<(Seq<char>, Seq<Seq<char>>)>,
) -> ExecutorView
    decreases rs.len(),
{
    if rs.len() == 0 {
        v
    } else {
        let w = after_resolving(v, rs.drop_last());
        ExecutorView {
            domains: w.domains.insert(rs.last().0, rs.last().1),
            delays: with_unmeasured(w.delays, rs.last().1),
        }
    }
}

proof fn lemma_after_resolving(rs: Seq<(Seq<char>, Seq<Seq<char>>)>)
    ensures
        addresses_recorded(
            after_resolving(
                ExecutorView { domains: Map::empty(), delays: Map::empty() },
                rs,
            ),
        ),
        all_unmeasured(
            after_resolving(
                ExecutorView { domains: Map::empty(), delays: Map::empty() },
                rs,
            ).delays,
        ),
        forall|d: Seq<char>|
            #[trigger] after_resolving(
                ExecutorView { domains: Map::empty(), delays: Map::empty() },
                rs,
            ).domains.contains_key(d) <==> exists|i: int| 0 <= i < rs.len() && rs[i].0 == d,
        forall|i: int|
            0 <= i < rs.len() && (forall|j: int| i < j < rs.len() ==> rs[j].0 != rs[i].0)
                ==> #[trigger] after_resolving(
                ExecutorView { domains: Map::empty(), delays: Map::empty() },
                rs,
            ).domains[rs[i].0] == rs[i].1,
    decreases rs.len(),
{
    let e = ExecutorView { domains: Map::empty(), delays: Map::empty() };
    if rs.len() > 0 {
        let t = rs.drop_last();
        let n = rs.len() - 1;
        lemma_after_resolving(t);
        let w = after_resolving(e, t);
        law_resolved_keeps_addresses_recorded(w, rs.last().0, rs.last().1);
        law_resolved_keeps_unmeasured(w.delays, rs.last().1);
        let x = after_resolving(e, rs);
        assert forall|d: Seq<char>|
            x.domains.contains_key(d) <==> exists|i: int| 0 <= i < rs.len() && rs[i].0 == d by {
            if w.domains.contains_key(d) {
                let i = choose|i: int| 0 <= i < t.len() && t[i].0 == d;
                assert(rs[i].0 == d);
            }
            if exists|i: int| 0 <= i < rs.len() && rs[i].0 == d {
                let i = choose|i: int| 0 <= i < rs.len() && rs[i].0 == d;
                if i < n {
                    assert(t[i].0 == d);
                }
            }
        }
        assert forall|i: int|
            0 <= i < rs.len() && (forall|j: int| i < j < rs.len() ==> rs[j].0 != rs[i].0)
                implies #[trigger] x.domains[rs[i].0] == rs[i].1 by {
            if i < n {
                assert(t[i] == rs[i]);
                assert(rs[n].0 != rs[i].0);
                assert forall|j: int| i < j < t.len() implies t[j].0 != t[i].0 by {
                    assert(t[j] == rs[j]);
                }
            }
        }
    }
}

/// Resolving distinct domains, each to at least one address, into an empty
/// table gives one answer per domain, each its last address at the
/// not-measured delay; after that, measuring delays (which keeps every
/// address recorded) leaves the answered domains as they are.
pub proof fn law_one_answer_per_domain(rs: Seq<(Seq<char>, Seq<Seq<char>>)>)
    requires
        forall|i: int, j: int| 0 <= i < j < rs.len() ==> rs[i].0 != rs[j].0,
        forall|i: int| 0 <= i < rs.len() ==> (#[trigger] rs[i]).1.len() > 0,
    ensures
        addresses_recorded(
            after_resolving(
                ExecutorView { domains: Map::empty(), delays: Map::empty() },
                rs,
            ),
        ),
        answers(
            after_resolving(
                ExecutorView { domains: Map::empty(), delays: Map::empty() },
                rs,
            ),
        ).dom().finite(),
        answers(
            after_resolving(
                ExecutorView { domains: Map::empty(), delays: Map::empty() },
                rs,
            ),
        ).dom().len() == rs.len(),
        forall|i: int|
            0 <= i < rs.len() ==> #[trigger] answers(
                after_resolving(
                    ExecutorView { domains: Map::empty(), delays: Map::empty() },
                    rs,
                ),
            )[rs[i].0] == (rs[i].1.last(), UNMEASURED),
{
    let e = ExecutorView { domains: Map::empty(), delays: Map::empty() };
    let x = after_resolving(e, rs);
    lemma_after_resolving(rs);
    law_unmeasured_answers(x);
    let keys = rs.map_values(|p: (Seq<char>, Seq<Seq<char>>)| p.0);
    assert forall|i: int| 0 <= i < rs.len() implies #[trigger] x.domains[rs[i].0] == rs[i].1
        && x.domains.contains_key(rs[i].0) by {
        assert forall|j: int| i < j < rs.len() implies rs[j].0 != rs[i].0 by {}
    }
    assert(answers(x).dom() =~= keys.to_set()) by {
        assert forall|d: Seq<char>| answers(x).dom().contains(d) <==> keys.to_set().contains(d) by {
            if answers(x).dom().contains(d) {
                let i = choose|i: int| 0 <= i < rs.len() && rs[i].0 == d;
                assert(keys[i] == d);
            }
            if keys.to_set().contains(d) {
                let i = choose|i: int| 0 <= i < keys.len() && keys[i] == d;
                assert(rs[i].0 == d);
                assert(x.domains[rs[i].0] == rs[i].1);
            }
        }
    }
    assert(keys.no_duplicates()) by {
        assert forall|i: int, j: int| 0 <= i < keys.len() && 0 <= j < keys.len() && i != j implies keys[i]
            != keys[j] by {
            if i < j {
                assert(rs[i].0 != rs[j].0);
            } else {
                assert(rs[j].0 != rs[i].0);
            }
        }
    }
    keys.unique_seq_to_set();
    vstd::seq_lib::seq_to_set_is_finite(keys);
    assert forall|i: int| 0 <= i < rs.len() implies #[trigger] answers(x)[rs[i].0] == (
        rs[i].1.last(),
        UNMEASURED,
    ) by {
        assert(x.domains[rs[i].0] == rs[i].1);
    }
}

/// The delays after recording the probes `ps` in order, each an address and
/// how its connection attempt ended; an address without a recorded delay
/// stays without one.
pub open spec fn after_probing(
    delays: Map<Seq<char>, u32>,
    ps: Seq<(Seq<char>, ProbeOutcome)>,
) -> Map<Seq<char>, u32>
    decreases ps.len(),
{
    if ps.len() == 0 {
        delays
    } else {
        let d = after_probing(delays, ps.drop_last());
        if d.contains_key(ps.last().0) {
            d.insert(ps.last().0, delay_code(ps.last().1))
        } else {
            d
        }
    }
}

/// A connection attempt that succeeded in fewer than `UNREACHABLE`
/// microseconds (one that finishes within a timeout of seconds does) is
/// recorded as those microseconds, and so below every mark; one that failed
/// or timed out is recorded at or above `UNREACHABLE`.
pub proof fn law_probe_code(outcome: ProbeOutcome)
    requires
        outcome matches ProbeOutcome::Connected(m) ==> m < UNREACHABLE,
    ensures
        delay_code(outcome) < UNREACHABLE <==> outcome is Connected,
        outcome matches ProbeOutcome::Connected(m) ==> delay_code(outcome) == m,
{
}

/// After every recorded address has been probed, with each successful
/// attempt under `UNREACHABLE` microseconds, no delay keeps the
/// not-measured mark, and the addresses with a delay are the same.
pub proof fn law_probing_clears_unmeasured(
    delays: Map<Seq<char>, u32>,
    ps: Seq<(Seq<char>, ProbeOutcome)>,
)
    requires
        forall|k: Seq<char>|
            #[trigger] delays.contains_key(k) ==> exists|i: int| 0 <= i < ps.len() && ps[i].0 == k,
        forall|i: int|
            0 <= i < ps.len() ==> ((#[trigger] ps[i]).1 matches ProbeOutcome::Connected(m) ==> m
                < UNREACHABLE),
    ensures
        after_probing(delays, ps).dom() == delays.dom(),
        forall|k: Seq<char>|
            #[trigger] after_probing(delays, ps).contains_key(k) ==> after_probing(delays, ps)[k]
                != UNMEASURED,
{
    lemma_probing(delays, ps);
}

proof fn lemma_probing(delays: Map<Seq<char>, u32>, ps: Seq<(Seq<char>, ProbeOutcome)>)
    requires
        forall|i: int|
            0 <= i < ps.len() ==> ((#[trigger] ps[i]).1 matches ProbeOutcome::Connected(m) ==> m
                < UNREACHABLE),
    ensures
        after_probing(delays, ps).dom() == delays.dom(),
        forall|k: Seq<char>|
            #[trigger] after_probing(delays, ps).contains_key(k) && (exists|i: int|
                0 <= i < ps.len() && ps[i].0 == k) ==> after_probing(delays, ps)[k] != UNMEASURED,
    decreases ps.len(),
{
    if ps.len() > 0 {
        let t = ps.drop_last();
        let n = ps.len() - 1;
        assert forall|i: int| 0 <= i < t.len() implies ((#[trigger] t[i]).1 matches ProbeOutcome::Connected(
            m,
        ) ==> m < UNREACHABLE) by {
            assert(t[i] == ps[i]);
        }
        lemma_probing(delays, t);
        let d = after_probing(delays, t);
        assert(ps[n] == ps.last());
        law_probe_code(ps.last().1);
        if d.contains_key(ps.last().0) {
            assert(d.insert(ps.last().0, delay_code(ps.last().1)).dom() =~= d.dom());
        }
        assert forall|k: Seq<char>|
            #[trigger] after_probing(delays, ps).contains_key(k) && (exists|i: int|
                0 <= i < ps.len() && ps[i].0 == k) implies after_probing(delays, ps)[k]
            != UNMEASURED by {
            if k != ps.last().0 {
                let i = choose|i: int| 0 <= i < ps.len() && ps[i].0 == k;
                assert(i < n);
                assert(t[i].0 == k);
            }
        }
    }
}


/// How a run of attempts to resolve one domain ends.
pub enum RunEnd {
    /// An attempt gave these addresses.
    Resolved(Seq<Seq<char>>),
    /// The domain was given up.
    GaveUp,
}

/// A run of attempts whose results are `results` (an attempt gives
/// addresses or fails), following `retry_step` from `failures` earlier
/// failures: how it ends, how many attempts it makes and how many pauses
/// it takes.
pub open spec fn run_attempts(results: Seq<Option<Seq<Seq<char>>>>, failures: u32) -> (
    RunEnd,
    nat,
    nat,
)
    decreases results.len(),
{
    if results.len() == 0 {
        (RunEnd::GaveUp, 0, 0)
    } else {
        match results[0] {
            Some(ips) => (RunEnd::Resolved(ips), 1, 0),
            None => match retry_step(failures) {
                RetryStep::GiveUp => (RunEnd::GaveUp, 1, 0),
                RetryStep::Retry { failures: f, pause_ms: _ } => {
                    let r = run_attempts(results.drop_first(), f);
                    (r.0, r.1 + 1, r.2 + 1)
                },
            },
        }
    }
}

/// Resolving a domain makes at most four attempts, with a pause after each
/// of the first three failures: the outcome is the addresses of the first
/// attempt among the first four that gives some, and the domain is given
/// up exactly when the first four attempts all fail.
pub proof fn law_resolution_run(results: Seq<Option<Seq<Seq<char>>>>)
    requires
        results.len() >= MAX_FAILURES,
    ensures
        forall|k: int|
            0 <= k < MAX_FAILURES && #[trigger] results[k] is Some && (forall|j: int|
                0 <= j < k ==> results[j] is None) ==> run_attempts(results, 0) == (
                RunEnd::Resolved(results[k]->Some_0),
                (k + 1) as nat,
                k as nat,
            ),
        (forall|j: int| 0 <= j < MAX_FAILURES ==> #[trigger] results[j] is None) ==> run_attempts(
            results,
            0,
        ) == (RunEnd::GaveUp, 4nat, 3nat),
{
    let r1 = results.drop_first();
    let r2 = r1.drop_first();
    let r3 = r2.drop_first();
    assert(r1[0] == results[1] && r2[0] == results[2] && r3[0] == results[3]);
    assert(retry_step(0) == RetryStep::Retry { failures: 1, pause_ms: RETRY_PAUSE_MS });
    assert(retry_step(1) == RetryStep::Retry { failures: 2, pause_ms: RETRY_PAUSE_MS });
    assert(retry_step(2) == RetryStep::Retry { failures: 3, pause_ms: RETRY_PAUSE_MS });
    assert(retry_step(3) == RetryStep::GiveUp);
    let a3 = run_attempts(r3, 3);
    let a2 = run_attempts(r2, 2);
    let a1 = run_attempts(r1, 1);
    let a0 = run_attempts(results, 0);
    if results[3] is Some {
        assert(a3 == (RunEnd::Resolved(results[3]->Some_0), 1nat, 0nat));
    } else {
        assert(a3 == (RunEnd::GaveUp, 1nat, 0nat));
    }
    if results[2] is Some {
        assert(a2 == (RunEnd::Resolved(results[2]->Some_0), 1nat, 0nat));
    } else {
        assert(a2 == (a3.0, a3.1 + 1, a3.2 + 1));
    }
    if results[1] is Some {
        assert(a1 == (RunEnd::Resolved(results[1]->Some_0), 1nat, 0nat));
    } else {
        assert(a1 == (a2.0, a2.1 + 1, a2.2 + 1));
    }
    if results[0] is Some {
        assert(a0 == (RunEnd::Resolved(results[0]->Some_0), 1nat, 0nat));
    } else {
        assert(a0 == (a1.0, a1.1 + 1, a1.2 + 1));
    }
}


/// The pause between attempts is half a second.
pub proof fn law_retry_pause(failures: u32)
    ensures
        retry_step(failures) matches RetryStep::Retry { pause_ms, .. } ==> pause_ms == 500,
        retry_step(failures) matches RetryStep::Retry { failures: f, .. } ==> f == failures + 1,
{
}

/// The recorded delay codes: a connection's microseconds modulo 2^32, a
/// failed connection `u32::MAX - 2`, a timed-out one `u32::MAX - 1`; an
/// address not measured yet carries `u32::MAX`.
pub proof fn law_delay_codes(micros: u128)
    ensures
        delay_code(ProbeOutcome::Connected(micros)) == micros % 0x1_0000_0000,
        delay_code(ProbeOutcome::Failed) == 0xffff_ffffu32 - 2,
        delay_code(ProbeOutcome::TimedOut) == 0xffff_ffffu32 - 1,
        UNMEASURED == 0xffff_ffffu32,
{
}

/// Recording a resolved domain sets every one of its addresses to the
/// not-measured mark and leaves every other address as it was.
pub proof fn law_with_unmeasured(delays: Map<Seq<char>, u32>, ips: Seq<Seq<char>>, k: Seq<char>)
    ensures
        ips.contains(k) ==> with_unmeasured(delays, ips).contains_key(k) && with_unmeasured(
            delays,
            ips,
        )[k] == 0xffff_ffffu32,
        !ips.contains(k) ==> (with_unmeasured(delays, ips).contains_key(k) == delays.contains_key(k))
            && (delays.contains_key(k) ==> with_unmeasured(delays, ips)[k] == delays[k]),
{
}

} // verus!
