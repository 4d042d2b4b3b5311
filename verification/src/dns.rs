//! DNS messages: the query the library sends for a domain, and what it
//! reads of a reply. The wire format is trust-dns's; the library holds a
//! reply as plain values.

use std::str::FromStr;

use trust_dns_client::op::{Message, Query};
use trust_dns_client::proto::xfer::DnsResponse;
use trust_dns_client::rr::{Name, RData, RecordType};
use vstd::prelude::*;

verus! {

/// The record type of IPv4 address records.
pub const RECORD_TYPE_A: u16 = 1;

/// The response code of a reply without error.
pub const NO_ERROR: u16 = 0;

/// One answer record of a reply: its type and, for an address record that
/// carries one, its IPv4 address.
#[derive(Debug, Clone, Copy, PartialEq, Eq)]
pub struct DnsAnswer {
    pub record_type: u16,
    pub ipv4: Option<[u8; 4]>,
}

/// What the library reads of a reply.
#[derive(Debug, Clone)]
pub struct DnsReply {
    pub response_code: u16,
    pub answers: Vec<DnsAnswer>,
}

pub struct DnsReplyView {
    pub response_code: u16,
    pub answers: Seq<DnsAnswer>,
}

impl View for DnsReply {
    type V = DnsReplyView;

    open spec fn view(&self) -> DnsReplyView {
        DnsReplyView { response_code: self.response_code, answers: self.answers@ }
    }
}

/// One question of a query: the name asked for (as trust-dns writes it),
/// the record type and the class.
#[derive(Debug, Clone, PartialEq, Eq)]
pub struct DnsQuestion {
    pub name: String,
    pub record_type: u16,
    pub class: u16,
}

/// The plain values of a list of questions.
pub open spec fn question_values(q: Seq<DnsQuestion>) -> Seq<(Seq<char>, u16, u16)> {
    q.map_values(|x: DnsQuestion| (x.name@, x.record_type, x.class))
}

/// Why a DNS exchange gives no reply.
#[derive(Debug, Clone, Copy, PartialEq, Eq)]
pub enum DnsError {
    /// The domain is no DNS name, or the query cannot be encoded.
    Encode,
    /// The reply cannot be decoded as a DNS response.
    Decode,
}

/// The wire bytes of the query for `domain` and `record_type` (message id 0,
/// no flags set, one question of class IN), or `None` where the domain is
/// no DNS name or the message cannot be encoded.
pub uninterp spec fn query_message(domain: Seq<char>, record_type: u16) -> Option<Seq<u8>>;

/// The reply that the wire bytes `bytes` decode to, or `None` where they
/// decode to no DNS response.
pub uninterp spec fn reply_of(bytes: Seq<u8>) -> Option<DnsReplyView>;

/// The questions of the query that the wire bytes `bytes` decode to, or
/// `None` where they decode to no DNS message.
pub uninterp spec fn questions_of(bytes: Seq<u8>) -> Option<Seq<(Seq<char>, u16, u16)>>;

/// trust-dns: `Message::from_vec` decodes `bytes`, and the name (written
/// with `Display`), type and class of each of its `queries()` are read out.
/// Claimed: the result is `questions_of` the bytes, a function of them alone.
#[verifier::external_body]
fn decode_query_message(bytes: &[u8]) -> (r: Option<Vec<DnsQuestion>>)
    ensures
        match r {
            Some(q) => questions_of(bytes@) == Some(question_values(q@)),
            None => questions_of(bytes@) is None,
        },
{
    let message = Message::from_vec(bytes).ok()?;
    Some(message.queries().iter().map(|q| DnsQuestion {
        name: q.name().to_string(),
        record_type: u16::from(q.query_type()),
        class: u16::from(q.query_class()),
    }).collect())
}

/// trust-dns: the query message for `domain` and `record_type`, encoded.
/// The domain is parsed with `Name::from_str`, a `Message::new()` gets
/// `Query::query(name, record_type)` through `Message::add_query`, and
/// `Message::to_vec` encodes it. Claimed: the bytes are `query_message` of
/// the arguments, a function of them alone (`Message::new` sets id 0).
#[verifier::external_body]
fn encode_query_message(domain: &str, record_type: u16) -> (r: Option<Vec<u8>>)
    ensures
        match r {
            Some(b) => query_message(domain@, record_type) == Some(b@),
            None => query_message(domain@, record_type) is None,
        },
{
    let name = Name::from_str(domain).ok()?;
    let mut message = Message::new();
    message.add_query(Query::query(name, RecordType::from(record_type)));
    message.to_vec().ok()
}

/// trust-dns: `Message::from_vec` decodes `bytes`, `DnsResponse::from_message`
/// takes the message as a response, and its response code and answer
/// records are read out as plain values. Claimed: the result is `reply_of`
/// the bytes, a function of them alone.
#[verifier::external_body]
fn decode_reply_message(bytes: &[u8]) -> (r: Option<DnsReply>)
    ensures
        match r {
            Some(m) => reply_of(bytes@) == Some(m@),
            None => reply_of(bytes@) is None,
        },
{
    let response = DnsResponse::from_message(Message::from_vec(bytes).ok()?).ok()?;
    let answers = response.answers().iter().map(|rec| DnsAnswer {
        record_type: u16::from(rec.record_type()),
        ipv4: match rec.data() {
            Some(RData::A(a)) => Some(a.0.octets()),
            _ => None,
        },
    }).collect();
    Some(DnsReply { response_code: u16::from(response.response_code()), answers })
}

/// The query to send for `domain` and `record_type`.
pub fn build_query(domain: &str, record_type: u16) -> (r: Result<Vec<u8>, DnsError>)
    ensures
        match r {
            Ok(b) => query_message(domain@, record_type) == Some(b@),
            Err(e) => e == DnsError::Encode && query_message(domain@, record_type) is None,
        },
{
    match encode_query_message(domain, record_type) {
        Some(b) => Ok(b),
        None => Err(DnsError::Encode),
    }
}

/// The reply held in `buf`.
pub fn read_reply(buf: &[u8]) -> (r: Result<DnsReply, DnsError>)
    ensures
        match r {
            Ok(m) => reply_of(buf@) == Some(m@),
            Err(e) => e == DnsError::Decode && reply_of(buf@) is None,
        },
{
    match decode_reply_message(buf) {
        Some(m) => Ok(m),
        None => Err(DnsError::Decode),
    }
}

/// The questions of the query held in `buf`.
pub fn read_query(buf: &[u8]) -> (r: Result<Vec<DnsQuestion>, DnsError>)
    ensures
        match r {
            Ok(q) => questions_of(buf@) == Some(question_values(q@)),
            Err(e) => e == DnsError::Decode && questions_of(buf@) is None,
        },
{
    match decode_query_message(buf) {
        Some(q) => Ok(q),
        None => Err(DnsError::Decode),
    }
}

/// Every address record carries its address.
pub open spec fn a_records_carry_addresses(answers: Seq<DnsAnswer>) -> bool {
    forall|i: int|
        0 <= i < answers.len() && answers[i].record_type == RECORD_TYPE_A ==> (
        #[trigger] answers[i]).ipv4 is Some
}

/// The addresses of the address records among `answers`, in order.
pub open spec fn a_addresses_of(answers: Seq<DnsAnswer>) -> Seq<[u8; 4]>
    decreases answers.len(),
{
    if answers.len() == 0 {
        seq![]
    } else {
        let r = a_addresses_of(answers.drop_last());
        let a = answers.last();
        if a.record_type == RECORD_TYPE_A {
            r.push(a.ipv4->Some_0)
        } else {
            r
        }
    }
}

/// An address record adds its address after those of the records before
/// it, whatever they are; any other record adds nothing.
pub proof fn law_a_addresses_push(s: Seq<DnsAnswer>, a: DnsAnswer)
    ensures
        a.record_type == RECORD_TYPE_A ==> a_addresses_of(s.push(a)) == a_addresses_of(s).push(
            a.ipv4->Some_0,
        ),
        a.record_type != RECORD_TYPE_A ==> a_addresses_of(s.push(a)) == a_addresses_of(s),
{
    assert(s.push(a).drop_last() =~= s);
}

/// The addresses of two lists of answers, one after the other, are the
/// addresses of the lists, one after the other.
pub proof fn law_a_addresses_concat(s: Seq<DnsAnswer>, t: Seq<DnsAnswer>)
    ensures
        a_addresses_of(s + t) == a_addresses_of(s) + a_addresses_of(t),
    decreases t.len(),
{
    if t.len() == 0 {
        assert(s + t =~= s);
        assert(a_addresses_of(s) + Seq::<[u8; 4]>::empty() =~= a_addresses_of(s));
    } else {
        law_a_addresses_concat(s, t.drop_last());
        assert((s + t).drop_last() =~= s + t.drop_last());
        assert((s + t).last() == t.last());
        if t.last().record_type == RECORD_TYPE_A {
            assert(a_addresses_of(s) + a_addresses_of(t.drop_last()).push(t.last().ipv4->Some_0)
                =~= (a_addresses_of(s) + a_addresses_of(t.drop_last())).push(t.last().ipv4->Some_0));
        }
    }
}

/// The address of every address record of a list is among the list's
/// addresses.
pub proof fn law_a_addresses_complete(s: Seq<DnsAnswer>, i: int)
    requires
        0 <= i < s.len(),
        s[i].record_type == RECORD_TYPE_A,
    ensures
        a_addresses_of(s).contains(s[i].ipv4->Some_0),
{
    let pre = s.take(i);
    let post = s.skip(i + 1);
    assert(s =~= pre.push(s[i]) + post);
    law_a_addresses_concat(pre.push(s[i]), post);
    law_a_addresses_push(pre, s[i]);
    let r = a_addresses_of(pre).push(s[i].ipv4->Some_0);
    assert((r + a_addresses_of(post))[r.len() - 1] == s[i].ipv4->Some_0);
}

/// The IPv4 addresses that the reply answers with, in order.
pub fn a_addresses(reply: &DnsReply) -> (r: Vec<[u8; 4]>)
    requires
        a_records_carry_addresses(reply.answers@),
    ensures
        r@ == a_addresses_of(reply.answers@),
{
    let mut r: Vec<[u8; 4]> = Vec::new();
    let mut i: usize = 0;
    while i < reply.answers.len()
        invariant
            i <= reply.answers@.len(),
            a_records_carry_addresses(reply.answers@),
            r@ == a_addresses_of(reply.answers@.take(i as int)),
        decreases reply.answers.len() - i,
    {
        let a = reply.answers[i];
        assert(reply.answers@.take(i + 1).drop_last() =~= reply.answers@.take(i as int));
        assert(reply.answers@.take(i + 1).last() == a);
        if a.record_type == RECORD_TYPE_A {
            match a.ipv4 {
                Some(x) => r.push(x),
                None => {
                    assert(reply.answers@[i as int] == a);
                },
            }
        }
        i = i + 1;
    }
    assert(reply.answers@.take(reply.answers@.len() as int) =~= reply.answers@);
    r
}

} // verus!
