//! DNS-over-TLS resolution of the configured names.
//!
//! Each configured resolver is tried in order; all names still unsettled are
//! queried concurrently over one multiplexed connection. A name is settled as
//! soon as one resolver returns an authenticated positive or negative answer.
//! SERVFAIL, timeouts and TLS failures are transient and fall through to the
//! next resolver; deterministic rejections (missing AD bit, non-global address)
//! are not retried on the same resolver.
//!
//! The whole run is bounded by `resolver.deadline_secs`: whatever is unsettled
//! when the budget expires is reported as transient, so `apply` always gets an
//! answers file in time. Every answer is recorded the moment its query
//! completes, so a deadline that fires while other names are still pending
//! never discards answers that had already arrived.

use vstd::prelude::*;
use crate::addr::{addr_text, Ipv4Addr};
use crate::answers;
use crate::answers::{results_of, Answers, NameResult, Outcome, ResultView};
use crate::config::valid_hostname;
use crate::dns::{
    absolute, ascii_form, canonical, host_labels, name_from_ascii, parsed_name, rcode_name,
    rcode_text, records_of, same_name, DataView, DnsName, DnsNameView, Record, RecordData,
    RecordView, Response, ResponseView, NO_ERROR, NX_DOMAIN,
};
use crate::number::{number_text, numeral};
use crate::plan::{distinct, has_addr};
use crate::secs::Secs;
use crate::text::{opt_text, texts};
use crate::validate::{global_unicast, is_global_unicast};

verus! {

/// Longest CNAME chain followed from the queried name.
pub const MAX_CNAME_HOPS: usize = 8;

/// Outcome of one query against one resolver.
#[derive(Debug, Clone, PartialEq, Eq)]
pub enum Classified {
    /// Authenticated answer with at least one valid A record for the queried
    /// name (or the end of its CNAME chain).
    Resolved { addrs: Vec<Ipv4Addr>, min_ttl: u32 },
    /// Authenticated proof that the name has no A records.
    Empty(String),
    /// No usable answer. `retry`: whether asking the same resolver again can
    /// help (timeouts, SERVFAIL) or not (deterministic answers such as a
    /// missing AD bit).
    Transient { reason: String, retry: bool },
}

/// The contents of a [`Classified`].
pub enum ClassifiedView {
    Resolved { addrs: Seq<Ipv4Addr>, min_ttl: u32 },
    Empty(Seq<char>),
    Transient { reason: Seq<char>, retry: bool },
}

impl View for Classified {
    type V = ClassifiedView;

    open spec fn view(&self) -> ClassifiedView {
        match self {
            Classified::Resolved { addrs, min_ttl } => ClassifiedView::Resolved {
                addrs: addrs@,
                min_ttl: *min_ttl,
            },
            Classified::Empty(reason) => ClassifiedView::Empty(reason@),
            Classified::Transient { reason, retry } => ClassifiedView::Transient {
                reason: reason@,
                retry: *retry,
            },
        }
    }
}

/// No usable answer; asking again can help.
pub open spec fn may_retry(reason: Seq<char>) -> ClassifiedView {
    ClassifiedView::Transient { reason, retry: true }
}

/// No usable answer; asking the same resolver again cannot help.
pub open spec fn final_failure(reason: Seq<char>) -> ClassifiedView {
    ClassifiedView::Transient { reason, retry: false }
}

/// No usable answer; asking again can help.
pub fn transient(reason: &str) -> (r: Classified)
    ensures
        r@ == may_retry(reason@),
{
    Classified::Transient { reason: reason.to_owned(), retry: true }
}

/// No usable answer; asking the same resolver again cannot help.
pub fn permanent(reason: &str) -> (r: Classified)
    ensures
        r@ == final_failure(reason@),
{
    Classified::Transient { reason: reason.to_owned(), retry: false }
}

// ---------------------------------------------------------------------------
// The CNAME chain
// ---------------------------------------------------------------------------

/// The target of a CNAME record owned by `owner`.
pub open spec fn alias_in(r: RecordView, owner: DnsNameView) -> Option<DnsNameView> {
    match r.data {
        DataView::Cname(target) => if same_name(r.name, owner) {
            Some(target)
        } else {
            None
        },
        _ => None,
    }
}

/// The target of the first CNAME record owned by `owner`.
pub open spec fn alias_of(answers: Seq<RecordView>, owner: DnsNameView) -> Option<DnsNameView>
    decreases answers.len(),
{
    if answers.len() == 0 {
        None
    } else {
        match alias_of(answers.drop_last(), owner) {
            Some(t) => Some(t),
            None => alias_in(answers.last(), owner),
        }
    }
}

/// The end of the CNAME chain that starts at `owner`, at most `hops` long;
/// `None` if it leads back to a name already `seen`.
pub open spec fn chain_end(
    answers: Seq<RecordView>,
    owner: DnsNameView,
    seen: Set<DnsNameView>,
    hops: nat,
) -> Option<DnsNameView>
    decreases hops,
{
    if hops == 0 {
        Some(owner)
    } else {
        match alias_of(answers, owner) {
            None => Some(owner),
            Some(t) => if seen.contains(canonical(absolute(t))) {
                None
            } else {
                chain_end(
                    answers,
                    absolute(t),
                    seen.insert(canonical(absolute(t))),
                    (hops - 1) as nat,
                )
            },
        }
    }
}

/// The name whose A records count for a query of `qname`: the end of the CNAME
/// chain that starts there; `None` if the chain is a loop.
pub open spec fn final_owner(answers: Seq<RecordView>, qname: DnsNameView) -> Option<DnsNameView> {
    let start = absolute(qname);
    chain_end(answers, start, set![canonical(start)], MAX_CNAME_HOPS as nat)
}

fn find_alias(answers: &Vec<Record>, owner: &DnsName) -> (r: Option<DnsName>)
    ensures
        r is Some <==> alias_of(records_of(answers@), owner@) is Some,
        r matches Some(t) ==> Some(t@) == alias_target(records_of(answers@), owner@),
{
    let ghost all = records_of(answers@);
    let mut i: usize = 0;
    assert(all.take(0) =~= Seq::<RecordView>::empty());
    while i < answers.len()
        invariant
            i <= answers@.len(),
            all == records_of(answers@),
            alias_of(all.take(i as int), owner@) is None,
        decreases answers@.len() - i,
    {
        assert(all.take(i + 1).drop_last() == all.take(i as int));
        assert(all[i as int] == answers@[i as int]@);
        match &answers[i].data {
            RecordData::Cname(target) => {
                if answers[i].name.same(owner) {
                    proof {
                        lemma_alias_extends(all, owner@, i + 1);
                    }
                    return Some(target.to_absolute());
                }
            },
            _ => {},
        }
        i += 1;
    }
    assert(all.take(i as int) =~= all);
    None
}

/// The target of the first CNAME record owned by `owner`, made absolute.
spec fn alias_target(answers: Seq<RecordView>, owner: DnsNameView) -> Option<DnsNameView> {
    match alias_of(answers, owner) {
        Some(t) => Some(absolute(t)),
        None => None,
    }
}

/// The first match in a prefix is the first match.
proof fn lemma_alias_extends(answers: Seq<RecordView>, owner: DnsNameView, n: int)
    requires
        0 <= n <= answers.len(),
        alias_of(answers.take(n), owner) is Some,
    ensures
        alias_of(answers, owner) == alias_of(answers.take(n), owner),
    decreases answers.len() - n,
{
    if n < answers.len() {
        assert(answers.take(n + 1).drop_last() == answers.take(n));
        lemma_alias_extends(answers, owner, n + 1);
    } else {
        assert(answers.take(n) == answers);
    }
}

/// The canonical forms of a list of names.
spec fn forms(v: Seq<DnsName>) -> Set<DnsNameView> {
    Set::new(|n: DnsNameView| exists|k: int| 0 <= k < v.len() && n == canonical(#[trigger] v[k]@))
}

fn already_seen(seen: &Vec<DnsName>, n: &DnsName) -> (r: bool)
    ensures
        r == forms(seen@).contains(canonical(n@)),
{
    let mut i: usize = 0;
    while i < seen.len()
        invariant
            i <= seen@.len(),
            forall|k: int| 0 <= k < i ==> canonical(#[trigger] seen@[k]@) != canonical(n@),
        decreases seen@.len() - i,
    {
        if seen[i].same(n) {
            return true;
        }
        i += 1;
    }
    false
}

/// Follows the CNAME chain from `qname` within the answer section.
fn follow(answers: &Vec<Record>, qname: &DnsName) -> (r: Option<DnsName>)
    ensures
        r is Some <==> final_owner(records_of(answers@), qname@) is Some,
        r matches Some(n) ==> final_owner(records_of(answers@), qname@) == Some(n@),
{
    let ghost all = records_of(answers@);
    let mut owner = qname.to_absolute();
    let mut seen: Vec<DnsName> = Vec::new();
    seen.push(qname.to_absolute());
    proof {
        assert(seen@[0]@ == absolute(qname@));
        assert(forms(seen@) =~= set![canonical(absolute(qname@))]);
    }
    let mut hops: usize = 0;
    while hops < MAX_CNAME_HOPS
        invariant
            hops <= MAX_CNAME_HOPS,
            all == records_of(answers@),
            chain_end(all, owner@, forms(seen@), (MAX_CNAME_HOPS - hops) as nat) == final_owner(
                all,
                qname@,
            ),
        decreases MAX_CNAME_HOPS - hops,
    {
        match find_alias(answers, &owner) {
            Some(target) => {
                if already_seen(&seen, &target) {
                    return None;
                }
                let ghost before = seen@;
                let ghost c = canonical(target@);
                seen.push(target.to_absolute());
                proof {
                    assert(target@ == absolute(target@));
                    assert(seen@.last()@ == target@);
                    assert forall|n: DnsNameView| forms(seen@).contains(n) <==> forms(
                        before,
                    ).insert(c).contains(n) by {
                        if forms(before).contains(n) {
                            let k = choose|k: int|
                                0 <= k < before.len() && n == canonical(#[trigger] before[k]@);
                            assert(seen@[k] == before[k]);
                        }
                        if n == c {
                            assert(n == canonical(seen@[before.len() as int]@));
                        }
                        if forms(seen@).contains(n) {
                            let k = choose|k: int|
                                0 <= k < seen@.len() && n == canonical(#[trigger] seen@[k]@);
                            if k < before.len() {
                                assert(before[k] == seen@[k]);
                            }
                        }
                    }
                    assert(forms(seen@) =~= forms(before).insert(c));
                }
                owner = target;
            },
            None => {
                return Some(owner);
            },
        }
        hops += 1;
    }
    Some(owner)
}

// ---------------------------------------------------------------------------
// Classification
// ---------------------------------------------------------------------------

/// The record gives an address to `owner`.
pub open spec fn gives_addr(r: RecordView, owner: DnsNameView) -> bool {
    r.data is A && same_name(r.name, owner)
}

/// The records that give an address to `owner`, in order.
pub open spec fn owned(answers: Seq<RecordView>, owner: DnsNameView) -> Seq<RecordView> {
    answers.filter(|r: RecordView| gives_addr(r, owner))
}

/// The number of records that give an address to some other name.
pub open spec fn unrelated(answers: Seq<RecordView>, owner: DnsNameView) -> nat {
    answers.filter(|r: RecordView| r.data is A && !same_name(r.name, owner)).len()
}

/// The addresses that the records give.
pub open spec fn record_addrs(records: Seq<RecordView>) -> Seq<Ipv4Addr> {
    records.map_values(|r: RecordView| r.data->A_0)
}

/// The first address that is not global unicast.
pub open spec fn first_special(addrs: Seq<Ipv4Addr>) -> Option<Ipv4Addr>
    decreases addrs.len(),
{
    if addrs.len() == 0 {
        None
    } else {
        match first_special(addrs.drop_last()) {
            Some(ip) => Some(ip),
            None => if global_unicast(addrs.last()) {
                None
            } else {
                Some(addrs.last())
            },
        }
    }
}

/// The smallest time to live.
pub open spec fn least_ttl(records: Seq<RecordView>) -> u32
    decreases records.len(),
{
    if records.len() == 0 {
        u32::MAX
    } else {
        let rest = least_ttl(records.drop_last());
        if records.last().ttl < rest {
            records.last().ttl
        } else {
            rest
        }
    }
}

/// What the A records say about `owner`.
pub open spec fn answer_for(answers: Seq<RecordView>, owner: DnsNameView) -> ClassifiedView {
    let records = owned(answers, owner);
    let addrs = record_addrs(records);
    match first_special(addrs) {
        Some(ip) => final_failure("answer contains non-global address "@ + addr_text(ip)),
        None => if addrs.len() > 0 {
            ClassifiedView::Resolved { addrs: distinct(addrs), min_ttl: least_ttl(records) }
        } else if unrelated(answers, owner) > 0 {
            final_failure(
                "answer has "@ + numeral(unrelated(answers, owner))
                    + " A record(s) but none for the queried name"@,
            )
        } else {
            ClassifiedView::Empty("NODATA (no A records)"@)
        },
    }
}

/// What a response to an `A` query for `qname` amounts to.
pub open spec fn classification(
    msg: ResponseView,
    qname: DnsNameView,
    require_authenticated: bool,
) -> ClassifiedView {
    let refused = require_authenticated && !msg.authentic;
    if msg.truncated {
        may_retry("truncated response"@)
    } else if msg.rcode == NX_DOMAIN {
        if refused {
            final_failure("NXDOMAIN without AD bit"@)
        } else {
            ClassifiedView::Empty("NXDOMAIN"@)
        }
    } else if msg.rcode != NO_ERROR {
        may_retry("rcode "@ + rcode_name(msg.rcode))
    } else if refused {
        final_failure("answer not authenticated (AD bit missing)"@)
    } else {
        match final_owner(msg.answers, qname) {
            None => final_failure("CNAME loop in answer"@),
            Some(owner) => answer_for(msg.answers, owner),
        }
    }
}

/// The first special address of a prefix is the first one.
proof fn lemma_special_extends(addrs: Seq<Ipv4Addr>, n: int)
    requires
        0 <= n <= addrs.len(),
        first_special(addrs.take(n)) is Some,
    ensures
        first_special(addrs) == first_special(addrs.take(n)),
    decreases addrs.len() - n,
{
    if n < addrs.len() {
        assert(addrs.take(n + 1).drop_last() == addrs.take(n));
        lemma_special_extends(addrs, n + 1);
    } else {
        assert(addrs.take(n) == addrs);
    }
}

/// The addresses owned in a prefix are a prefix of all owned ones.
proof fn lemma_owned_prefix(answers: Seq<RecordView>, owner: DnsNameView, n: int)
    requires
        0 <= n <= answers.len(),
    ensures
        owned(answers.take(n), owner).is_prefix_of(owned(answers, owner)),
    decreases answers.len() - n,
{
    if n < answers.len() {
        let p = |r: RecordView| gives_addr(r, owner);
        assert(answers.take(n + 1) == answers.take(n).push(answers[n]));
        answers.take(n).lemma_filter_push(answers[n], p);
        lemma_owned_prefix(answers, owner, n + 1);
        assert(owned(answers.take(n), owner).is_prefix_of(owned(answers.take(n + 1), owner)));
        let a = owned(answers.take(n), owner);
        let b = owned(answers.take(n + 1), owner);
        let c = owned(answers, owner);
        assert(a =~= c.subrange(0, a.len() as int)) by {
            assert(a =~= b.subrange(0, a.len() as int));
            assert(b =~= c.subrange(0, b.len() as int));
        }
    } else {
        assert(answers.take(n) == answers);
    }
}

/// What the A records say about `owner`.
fn read_answer(answers: &Vec<Record>, owner: &DnsName) -> (r: Classified)
    ensures
        r@ == answer_for(records_of(answers@), owner@),
{
    let ghost all = records_of(answers@);
    let ghost own = |r: RecordView| gives_addr(r, owner@);
    let ghost other = |r: RecordView| r.data is A && !same_name(r.name, owner@);
    let mut addrs: Vec<Ipv4Addr> = Vec::new();
    let mut min_ttl: u32 = u32::MAX;
    let mut others: usize = 0;
    let mut i: usize = 0;
    proof {
        reveal(Seq::filter);
        assert(all.take(0) =~= Seq::<RecordView>::empty());
        assert(owned(all.take(0), owner@) =~= Seq::<RecordView>::empty());
        assert(record_addrs(owned(all.take(0), owner@)) =~= Seq::<Ipv4Addr>::empty());
    }
    while i < answers.len()
        invariant
            i <= answers@.len(),
            all == records_of(answers@),
            own == (|r: RecordView| gives_addr(r, owner@)),
            other == (|r: RecordView| r.data is A && !same_name(r.name, owner@)),
            addrs@ == distinct(record_addrs(owned(all.take(i as int), owner@))),
            addrs@.len() == 0 ==> owned(all.take(i as int), owner@).len() == 0,
            first_special(record_addrs(owned(all.take(i as int), owner@))) is None,
            min_ttl == least_ttl(owned(all.take(i as int), owner@)),
            others == unrelated(all.take(i as int), owner@),
            others <= i,
        decreases answers@.len() - i,
    {
        let ghost head = all.take(i as int);
        let ghost rec = all[i as int];
        proof {
            assert(rec == answers@[i as int]@);
            assert(all.take(i + 1) == head.push(rec));
            head.lemma_filter_push(rec, own);
            head.lemma_filter_push(rec, other);
        }
        match &answers[i].data {
            RecordData::A(ip) => {
                let ip = *ip;
                if !answers[i].name.same(owner) {
                    others += 1;
                } else {
                    let ghost old_owned = owned(head, owner@);
                    let ghost new_owned = owned(all.take(i + 1), owner@);
                    proof {
                        assert(new_owned == old_owned.push(rec));
                        assert(new_owned.drop_last() == old_owned);
                        assert(record_addrs(new_owned) =~= record_addrs(old_owned).push(ip));
                        assert(record_addrs(new_owned).drop_last() =~= record_addrs(old_owned));
                    }
                    if !is_global_unicast(ip) {
                        proof {
                            let whole = record_addrs(owned(all, owner@));
                            lemma_owned_prefix(all, owner@, i + 1);
                            assert(whole.take(new_owned.len() as int) =~= record_addrs(new_owned));
                            lemma_special_extends(whole, new_owned.len() as int);
                        }
                        let mut s = "answer contains non-global address ".to_owned();
                        s.append(ip.text().as_str());
                        return permanent(s.as_str());
                    }
                    if !has_addr(&addrs, ip) {
                        addrs.push(ip);
                    }
                    if answers[i].ttl < min_ttl {
                        min_ttl = answers[i].ttl;
                    }
                    assert(addrs@.len() > 0);
                }
            },
            _ => {},
        }
        i += 1;
    }
    proof {
        assert(all.take(i as int) == all);
        lemma_distinct_keeps(record_addrs(owned(all, owner@)));
    }
    if addrs.len() == 0 {
        if others > 0 {
            let mut s = "answer has ".to_owned();
            s.append(number_text(others as u64).as_str());
            s.append(" A record(s) but none for the queried name");
            return permanent(s.as_str());
        }
        return Classified::Empty("NODATA (no A records)".to_owned());
    }
    Classified::Resolved { addrs, min_ttl }
}

/// Leaving out repetitions leaves something of anything.
proof fn lemma_distinct_keeps(s: Seq<Ipv4Addr>)
    ensures
        s.len() == 0 <==> distinct(s).len() == 0,
    decreases s.len(),
{
    if s.len() > 0 {
        lemma_distinct_keeps(s.drop_last());
    }
}

/// Classify a response to an `A` query for `qname`.
///
/// Only records owned by the queried name, or by the target of a CNAME chain
/// that starts at the queried name, are considered. Unrelated records in the
/// answer section never contribute addresses.
pub fn classify(msg: &Response, qname: &DnsName, require_authenticated: bool) -> (r: Classified)
    ensures
        r@ == classification(msg@, qname@, require_authenticated),
{
    if msg.truncated {
        return transient("truncated response");
    }
    let refused = require_authenticated && !msg.authentic;
    if msg.rcode == NX_DOMAIN {
        return if refused {
            permanent("NXDOMAIN without AD bit")
        } else {
            Classified::Empty("NXDOMAIN".to_owned())
        };
    }
    if msg.rcode != NO_ERROR {
        let mut s = "rcode ".to_owned();
        s.append(rcode_text(msg.rcode).as_str());
        return transient(s.as_str());
    }
    if refused {
        return permanent("answer not authenticated (AD bit missing)");
    }
    match follow(&msg.answers, qname) {
        None => permanent("CNAME loop in answer"),
        Some(owner) => read_answer(&msg.answers, &owner),
    }
}

// ---------------------------------------------------------------------------
// One query
// ---------------------------------------------------------------------------

/// The name to ask for, given what a parse of the configured name gives; or
/// the outcome of a query that cannot be made.
pub open spec fn asked_name(parsed: Result<DnsNameView, Seq<char>>) -> Result<
    DnsNameView,
    ClassifiedView,
> {
    match parsed {
        Ok(n) => Ok(absolute(n)),
        Err(e) => Err(final_failure("invalid name: "@ + e)),
    }
}

/// The contents of a name to ask for.
pub open spec fn question_view(r: Result<DnsName, Classified>) -> Result<
    DnsNameView,
    ClassifiedView,
> {
    match r {
        Ok(n) => Ok(n@),
        Err(c) => Err(c@),
    }
}

/// The name to ask for, given what a parse of the configured name gave.
pub fn question_from(parsed: Result<DnsName, String>) -> (r: Result<DnsName, Classified>)
    ensures
        question_view(r) == asked_name(parsed_name(parsed)),
{
    match parsed {
        Ok(n) => Ok(n.to_absolute()),
        Err(e) => {
            let mut s = "invalid name: ".to_owned();
            s.append(e.as_str());
            Err(permanent(s.as_str()))
        },
    }
}

/// The absolute name to ask for, for the configured `name`. Every hostname
/// has one: its labels.
pub fn question(name: &str) -> (r: Result<DnsName, Classified>)
    ensures
        question_view(r) == asked_name(ascii_form(name@)),
        valid_hostname(name@) ==> question_view(r) == Ok::<DnsNameView, ClassifiedView>(
            (DnsNameView { labels: host_labels(name@), fqdn: true }),
        ),
{
    question_from(name_from_ascii(name))
}

/// What came of a query.
#[derive(Debug, PartialEq, Eq)]
pub enum QueryReply {
    /// Nothing within the timeout.
    Timeout,
    /// The connection was closed first.
    Closed,
    /// The exchange failed.
    Failed(String),
    /// A response.
    Answer(Response),
}

/// What the reply to an `A` query for `qname` amounts to.
pub open spec fn reply_outcome(
    reply: QueryReply,
    qname: DnsNameView,
    require_authenticated: bool,
) -> ClassifiedView {
    match reply {
        QueryReply::Timeout => may_retry("timeout"@),
        QueryReply::Closed => may_retry("connection closed"@),
        QueryReply::Failed(e) => may_retry("dns error: "@ + e@),
        QueryReply::Answer(msg) => classification(msg@, qname, require_authenticated),
    }
}

/// Classifies the reply to an `A` query for `qname`.
pub fn interpret(reply: QueryReply, qname: &DnsName, require_authenticated: bool) -> (r: Classified)
    ensures
        r@ == reply_outcome(reply, qname@, require_authenticated),
{
    match reply {
        QueryReply::Timeout => transient("timeout"),
        QueryReply::Closed => transient("connection closed"),
        QueryReply::Failed(e) => {
            let mut s = "dns error: ".to_owned();
            s.append(e.as_str());
            transient(s.as_str())
        },
        QueryReply::Answer(msg) => classify(&msg, qname, require_authenticated),
    }
}

// ---------------------------------------------------------------------------
// One name on one resolver
// ---------------------------------------------------------------------------

/// The address and port of a resolver.
pub open spec fn server_form(ip: Ipv4Addr, port: u16) -> Seq<char> {
    addr_text(ip) + ":"@ + numeral(port as nat)
}

/// The address and port of a resolver.
pub fn server_text(ip: Ipv4Addr, port: u16) -> (r: String)
    ensures
        r@ == server_form(ip, port),
{
    let mut s = ip.text();
    s.append(":");
    s.append(number_text(port as u64).as_str());
    s
}

/// What a name comes to: its result, or the last transient reason.
pub type Settled = Result<ResultView, Seq<char>>;

/// The contents of what a name came to.
pub open spec fn settled_view(r: Result<NameResult, String>) -> Settled {
    match r {
        Ok(x) => Ok(x@),
        Err(e) => Err(e@),
    }
}

/// What a name has come to after the outcome `c` of attempt number `attempt`;
/// `None` if it is to be asked for again.
pub open spec fn attempt_outcome(
    name: Seq<char>,
    server: Seq<char>,
    attempt: nat,
    attempts: nat,
    c: ClassifiedView,
) -> Option<Settled> {
    match c {
        ClassifiedView::Resolved { addrs, min_ttl } => Some(
            Ok(
                ResultView {
                    name,
                    outcome: Outcome::Resolved,
                    addrs,
                    min_ttl: Some(min_ttl),
                    server: Some(server),
                    error: None,
                },
            ),
        ),
        ClassifiedView::Empty(reason) => Some(
            Ok(
                ResultView {
                    name,
                    outcome: Outcome::Empty,
                    addrs: Seq::empty(),
                    min_ttl: None,
                    server: Some(server),
                    error: Some(reason),
                },
            ),
        ),
        ClassifiedView::Transient { reason, retry } => if retry && attempt < attempts {
            None
        } else {
            Some(Err(server + ": "@ + reason))
        },
    }
}

/// What a name has come to after queries with the outcomes `seen`; `None` if
/// it is to be asked for (again).
pub open spec fn lookup_outcome(
    name: Seq<char>,
    server: Seq<char>,
    attempts: nat,
    seen: Seq<ClassifiedView>,
) -> Option<Settled>
    decreases seen.len(),
{
    if seen.len() == 0 {
        if attempts == 0 {
            Some(Err("no attempt"@))
        } else {
            None
        }
    } else {
        match lookup_outcome(name, server, attempts, seen.drop_last()) {
            Some(o) => Some(o),
            None => attempt_outcome(name, server, seen.len(), attempts, seen.last()),
        }
    }
}

/// One name being asked for on one resolver, retrying retryable transient
/// failures.
pub struct Lookup {
    name: String,
    server: String,
    attempts: u32,
    made: u32,
    outcome: Option<Result<NameResult, String>>,
    seen: Ghost<Seq<ClassifiedView>>,
}

impl Lookup {
    #[verifier::type_invariant]
    spec fn consistent(self) -> bool {
        &&& self.made == self.seen@.len()
        &&& self.outcome is None ==> self.made < self.attempts
        &&& (match self.outcome {
            Some(o) => Some(settled_view(o)),
            None => None,
        }) == lookup_outcome(self.name@, self.server@, self.attempts as nat, self.seen@)
    }

    pub closed spec fn name(&self) -> Seq<char> {
        self.name@
    }

    pub closed spec fn server(&self) -> Seq<char> {
        self.server@
    }

    pub closed spec fn attempts(&self) -> nat {
        self.attempts as nat
    }

    /// The outcomes of the queries made so far.
    pub closed spec fn history(&self) -> Seq<ClassifiedView> {
        self.seen@
    }

    /// What the name has come to; `None` if it is to be asked for (again).
    pub open spec fn settled(&self) -> Option<Settled> {
        lookup_outcome(self.name(), self.server(), self.attempts(), self.history())
    }

    /// A lookup for which no query has been made yet.
    pub fn start(name: &str, server: &str, attempts: u32) -> (r: Lookup)
        ensures
            r.name() == name@,
            r.server() == server@,
            r.attempts() == attempts,
            r.history().len() == 0,
    {
        let outcome: Option<Result<NameResult, String>> = if attempts == 0 {
            Some(Err("no attempt".to_owned()))
        } else {
            None
        };
        Lookup {
            name: name.to_owned(),
            server: server.to_owned(),
            attempts,
            made: 0,
            outcome,
            seen: Ghost(Seq::empty()),
        }
    }

    /// Whether the name is to be asked for (again).
    pub fn wants_query(&self) -> (r: bool)
        ensures
            r == (self.settled() is None),
    {
        proof {
            use_type_invariant(self);
        }
        self.outcome.is_none()
    }

    /// The number of the last attempt.
    pub fn attempt(&self) -> (r: u32)
        ensures
            r == self.history().len(),
    {
        proof {
            use_type_invariant(self);
        }
        self.made
    }

    /// The lookup after one more query, with the outcome `c`.
    pub fn record(self, c: Classified) -> (r: Lookup)
        requires
            self.settled() is None,
        ensures
            r.name() == self.name(),
            r.server() == self.server(),
            r.attempts() == self.attempts(),
            r.history() == self.history().push(c@),
    {
        proof {
            use_type_invariant(&self);
        }
        let ghost before = self.seen@;
        let ghost seen = before.push(c@);
        let made: u32 = self.made + 1;
        assert(seen.drop_last() =~= before);
        let outcome = match c {
            Classified::Resolved { addrs, min_ttl } => Some(
                Ok(
                    NameResult {
                        name: self.name.clone(),
                        outcome: Outcome::Resolved,
                        addrs,
                        min_ttl: Some(min_ttl),
                        server: Some(self.server.clone()),
                        error: None,
                    },
                ),
            ),
            Classified::Empty(reason) => {
                let none: Vec<Ipv4Addr> = Vec::new();
                assert(none@ =~= Seq::<Ipv4Addr>::empty());
                Some(
                    Ok(
                        NameResult {
                            name: self.name.clone(),
                            outcome: Outcome::Empty,
                            addrs: none,
                            min_ttl: None,
                            server: Some(self.server.clone()),
                            error: Some(reason),
                        },
                    ),
                )
            },
            Classified::Transient { reason, retry } => {
                if retry && made < self.attempts {
                    None
                } else {
                    let mut s = self.server.clone();
                    s.append(": ");
                    s.append(reason.as_str());
                    Some(Err(s))
                }
            },
        };
        Lookup {
            name: self.name,
            server: self.server,
            attempts: self.attempts,
            made,
            outcome,
            seen: Ghost(seen),
        }
    }

    /// What the name has come to; `None` if it is to be asked for (again).
    pub fn outcome(self) -> (r: Option<Result<NameResult, String>>)
        ensures
            r is Some <==> self.settled() is Some,
            r matches Some(o) ==> self.settled() == Some(settled_view(o)),
    {
        proof {
            use_type_invariant(&self);
        }
        self.outcome
    }
}

// ---------------------------------------------------------------------------
// All names
// ---------------------------------------------------------------------------

/// The names being resolved: for each its result, if it is settled, and the
/// last error.
pub struct Resolution {
    pub names: Vec<String>,
    pub results: Vec<Option<NameResult>>,
    pub last_error: Vec<String>,
}

/// The contents of a [`Resolution`].
pub struct ResolutionView {
    pub names: Seq<Seq<char>>,
    pub results: Seq<Option<ResultView>>,
    pub errors: Seq<Seq<char>>,
}

/// The contents of an optional result.
pub open spec fn opt_result(o: Option<NameResult>) -> Option<ResultView> {
    match o {
        Some(r) => Some(r@),
        None => None,
    }
}

/// The contents of a list of optional results.
pub open spec fn opt_results(v: Seq<Option<NameResult>>) -> Seq<Option<ResultView>> {
    v.map_values(|o: Option<NameResult>| opt_result(o))
}

impl View for Resolution {
    type V = ResolutionView;

    open spec fn view(&self) -> ResolutionView {
        ResolutionView {
            names: texts(self.names@),
            results: opt_results(self.results@),
            errors: texts(self.last_error@),
        }
    }
}

impl ResolutionView {
    /// Every name has its place in each list.
    pub open spec fn wf(self) -> bool {
        &&& self.results.len() == self.names.len()
        &&& self.errors.len() == self.names.len()
    }

    /// Name `i` is still to be settled.
    pub open spec fn unsettled(self, i: int) -> bool {
        self.results[i] is None
    }
}

/// No name has been asked for yet.
pub open spec fn not_attempted(names: Seq<Seq<char>>) -> ResolutionView {
    ResolutionView {
        names,
        results: Seq::new(names.len(), |i: int| None::<ResultView>),
        errors: Seq::new(names.len(), |i: int| "not attempted"@),
    }
}

/// The outcome for name `i` is recorded.
pub open spec fn with_outcome(v: ResolutionView, i: int, o: Settled) -> ResolutionView {
    match o {
        Ok(r) => ResolutionView { results: v.results.update(i, Some(r)), ..v },
        Err(e) => ResolutionView { errors: v.errors.update(i, e), ..v },
    }
}

/// Every name gets the same error.
pub open spec fn with_error(v: ResolutionView, e: Seq<char>) -> ResolutionView {
    ResolutionView { errors: Seq::new(v.errors.len(), |i: int| e), ..v }
}

/// Every unsettled name gets the same error.
pub open spec fn with_pending_error(v: ResolutionView, e: Seq<char>) -> ResolutionView {
    ResolutionView {
        errors: Seq::new(
            v.errors.len(),
            |i: int|
                if v.unsettled(i) {
                    e
                } else {
                    v.errors[i]
                },
        ),
        ..v
    }
}

/// The error of a name that was unsettled when the budget expired.
pub open spec fn deadline_error(secs: nat, e: Seq<char>) -> Seq<char> {
    "deadline of "@ + numeral(secs) + "s exceeded ("@ + e + ")"@
}

/// The budget expired.
pub open spec fn with_deadline(v: ResolutionView, secs: nat) -> ResolutionView {
    ResolutionView {
        errors: Seq::new(
            v.errors.len(),
            |i: int|
                if v.unsettled(i) {
                    deadline_error(secs, v.errors[i])
                } else {
                    v.errors[i]
                },
        ),
        ..v
    }
}

/// The result of a name that was not settled.
pub open spec fn unresolved(name: Seq<char>, e: Seq<char>) -> ResultView {
    ResultView {
        name,
        outcome: Outcome::Transient,
        addrs: Seq::empty(),
        min_ttl: None,
        server: None,
        error: Some(e),
    }
}

/// One result per name, in order.
pub open spec fn final_results(v: ResolutionView) -> Seq<ResultView> {
    Seq::new(
        v.names.len(),
        |i: int|
            match v.results[i] {
                Some(r) => r,
                None => unresolved(v.names[i], v.errors[i]),
            },
    )
}

impl Resolution {
    /// No name has been asked for yet.
    pub fn new(names: Vec<String>) -> (r: Resolution)
        ensures
            r@ == not_attempted(texts(names@)),
            r@.wf(),
    {
        let mut results: Vec<Option<NameResult>> = Vec::new();
        let mut last_error: Vec<String> = Vec::new();
        let mut i: usize = 0;
        while i < names.len()
            invariant
                i <= names@.len(),
                results@.len() == i,
                last_error@.len() == i,
                forall|k: int| 0 <= k < i ==> (#[trigger] results@[k]) is None,
                forall|k: int| 0 <= k < i ==> (#[trigger] last_error@[k])@ == "not attempted"@,
            decreases names@.len() - i,
        {
            results.push(None);
            last_error.push("not attempted".to_owned());
            i += 1;
        }
        let r = Resolution { names, results, last_error };
        assert(r@.results =~= not_attempted(texts(names@)).results);
        assert(r@.errors =~= not_attempted(texts(names@)).errors);
        r
    }

    /// The names that are still to be settled.
    pub fn pending(&self) -> (r: Vec<usize>)
        requires
            self@.wf(),
        ensures
            forall|k: int, m: int| 0 <= k < m < r@.len() ==> r@[k] < r@[m],
            forall|i: int|
                (0 <= i < self@.names.len() && self@.unsettled(i)) <==> (exists|k: int|
                    0 <= k < r@.len() && #[trigger] r@[k] == i),
    {
        let ghost all = self@.results;
        let mut out: Vec<usize> = Vec::new();
        let mut i: usize = 0;
        while i < self.results.len()
            invariant
                i <= self.results@.len(),
                all == opt_results(self.results@),
                forall|k: int, m: int| 0 <= k < m < out@.len() ==> out@[k] < out@[m],
                forall|k: int| 0 <= k < out@.len() ==> (#[trigger] out@[k]) < i && all[out@[k] as int] is None,
                forall|j: int|
                    0 <= j < i && all[j] is None ==> exists|k: int|
                        0 <= k < out@.len() && #[trigger] out@[k] == j,
            decreases self.results@.len() - i,
        {
            assert(all[i as int] == opt_result(self.results@[i as int]));
            let ghost before = out@;
            if self.results[i].is_none() {
                out.push(i);
                assert(out@[before.len() as int] == i);
            }
            assert forall|j: int| 0 <= j < i + 1 && all[j] is None implies exists|k: int|
                0 <= k < out@.len() && #[trigger] out@[k] == j by {
                if j < i {
                    let k = choose|k: int| 0 <= k < before.len() && #[trigger] before[k] == j;
                    assert(out@[k] == j);
                }
            }
            i += 1;
        }
        out
    }

    /// Which resolver to turn to after `tried` of `servers` resolvers; `None`
    /// if there is no other one or nothing left to ask.
    pub fn next_server(&self, tried: usize, servers: usize) -> (r: Option<usize>)
        requires
            self@.wf(),
        ensures
            r == (if tried < servers && exists|i: int|
                0 <= i < self@.names.len() && #[trigger] self@.unsettled(i) {
                Some(tried)
            } else {
                None
            }),
    {
        let pending = self.pending();
        if tried < servers && pending.len() > 0 {
            proof {
                let i = pending@[0] as int;
                assert(pending@[0] == i);
                assert(self@.unsettled(i));
            }
            Some(tried)
        } else {
            proof {
                if exists|i: int| 0 <= i < self@.names.len() && #[trigger] self@.unsettled(i) {
                    let i = choose|i: int|
                        0 <= i < self@.names.len() && #[trigger] self@.unsettled(i);
                    assert(exists|k: int| 0 <= k < pending@.len() && #[trigger] pending@[k] == i);
                }
            }
            None
        }
    }

    /// Record the outcome for name `i` as soon as its query completes.
    /// Whatever happens to the queries still pending, it stays recorded.
    pub fn settle(&mut self, i: usize, outcome: Result<NameResult, String>)
        requires
            old(self)@.wf(),
            i < old(self)@.names.len(),
        ensures
            final(self)@ == with_outcome(old(self)@, i as int, settled_view(outcome)),
            final(self)@.wf(),
    {
        let ghost before = self@;
        match outcome {
            Ok(r) => {
                let ghost v = r@;
                self.results.set(i, Some(r));
                assert(self@.results =~= before.results.update(i as int, Some(v)));
            },
            Err(e) => {
                let ghost t = e@;
                self.last_error.set(i, e);
                assert(self@.errors =~= before.errors.update(i as int, t));
            },
        }
    }

    /// There is no TLS configuration to connect with.
    pub fn tls_failed(&mut self, error: &str)
        requires
            old(self)@.wf(),
        ensures
            final(self)@ == with_error(old(self)@, "tls configuration failed: "@ + error@),
            final(self)@.wf(),
    {
        let ghost before = self@;
        let ghost want = with_error(before, "tls configuration failed: "@ + error@);
        let mut errors: Vec<String> = Vec::new();
        let mut i: usize = 0;
        while i < self.last_error.len()
            invariant
                i <= self.last_error@.len(),
                self@ == before,
                want == with_error(before, "tls configuration failed: "@ + error@),
                texts(errors@) == want.errors.take(i as int),
            decreases self.last_error@.len() - i,
        {
            let mut s = "tls configuration failed: ".to_owned();
            s.append(error);
            let ghost was = texts(errors@).push(s@);
            errors.push(s);
            assert(texts(errors@) =~= was);
            assert(was =~= want.errors.take(i + 1));
            i += 1;
        }
        self.last_error = errors;
        assert(self@.errors =~= want.errors);
    }

    /// A resolver could not be connected to.
    pub fn connect_failed(&mut self, server: &str, error: &str)
        requires
            old(self)@.wf(),
        ensures
            final(self)@ == with_pending_error(
                old(self)@,
                server@ + ": connect failed: "@ + error@,
            ),
            final(self)@.wf(),
    {
        let ghost before = self@;
        let ghost want = with_pending_error(before, server@ + ": connect failed: "@ + error@);
        let mut errors: Vec<String> = Vec::new();
        let mut i: usize = 0;
        while i < self.last_error.len()
            invariant
                i <= self.last_error@.len(),
                self@ == before,
                before.wf(),
                want == with_pending_error(before, server@ + ": connect failed: "@ + error@),
                texts(errors@) == want.errors.take(i as int),
            decreases self.last_error@.len() - i,
        {
            assert(before.results[i as int] == opt_result(self.results@[i as int]));
            assert(before.errors[i as int] == self.last_error@[i as int]@);
            let s = if self.results[i].is_none() {
                let mut s = server.to_owned();
                s.append(": connect failed: ");
                s.append(error);
                s
            } else {
                self.last_error[i].clone()
            };
            let ghost was = texts(errors@).push(s@);
            errors.push(s);
            assert(texts(errors@) =~= was);
            assert(was =~= want.errors.take(i + 1));
            i += 1;
        }
        self.last_error = errors;
        assert(self@.errors =~= want.errors);
    }

    /// The budget of `secs` seconds expired.
    pub fn deadline_reached(&mut self, secs: u64)
        requires
            old(self)@.wf(),
        ensures
            final(self)@ == with_deadline(old(self)@, secs as nat),
            final(self)@.wf(),
    {
        let ghost before = self@;
        let ghost want = with_deadline(before, secs as nat);
        let mut errors: Vec<String> = Vec::new();
        let mut i: usize = 0;
        while i < self.last_error.len()
            invariant
                i <= self.last_error@.len(),
                self@ == before,
                before.wf(),
                want == with_deadline(before, secs as nat),
                texts(errors@) == want.errors.take(i as int),
            decreases self.last_error@.len() - i,
        {
            assert(before.results[i as int] == opt_result(self.results@[i as int]));
            assert(before.errors[i as int] == self.last_error@[i as int]@);
            let s = if self.results[i].is_none() {
                let mut s = "deadline of ".to_owned();
                s.append(number_text(secs).as_str());
                s.append("s exceeded (");
                s.append(self.last_error[i].as_str());
                s.append(")");
                s
            } else {
                self.last_error[i].clone()
            };
            let ghost was = texts(errors@).push(s@);
            errors.push(s);
            assert(texts(errors@) =~= was);
            assert(was =~= want.errors.take(i + 1));
            i += 1;
        }
        self.last_error = errors;
        assert(self@.errors =~= want.errors);
    }

    /// The answers: one result per name. Unsettled names are reported as
    /// `Transient`, so the reader keeps their last-known-good addresses.
    pub fn finish(&self, uptime: Secs) -> (r: Answers)
        requires
            self@.wf(),
        ensures
            r.schema == answers::SCHEMA,
            r.generated_uptime_secs == uptime,
            results_of(r.results@) == final_results(self@),
    {
        let ghost want = final_results(self@);
        let mut out: Vec<NameResult> = Vec::new();
        let mut i: usize = 0;
        while i < self.names.len()
            invariant
                i <= self.names@.len(),
                self@.wf(),
                want == final_results(self@),
                results_of(out@) == want.take(i as int),
            decreases self.names@.len() - i,
        {
            assert(self@.results[i as int] == opt_result(self.results@[i as int]));
            assert(self@.errors[i as int] == self.last_error@[i as int]@);
            assert(self@.names[i as int] == self.names@[i as int]@);
            let r = match &self.results[i] {
                Some(r) => r.clone(),
                None => {
                    let none: Vec<Ipv4Addr> = Vec::new();
                    assert(none@ =~= Seq::<Ipv4Addr>::empty());
                    NameResult {
                        name: self.names[i].clone(),
                        outcome: Outcome::Transient,
                        addrs: none,
                        min_ttl: None,
                        server: None,
                        error: Some(self.last_error[i].clone()),
                    }
                },
            };
            assert(want.take(i + 1) == want.take(i as int).push(r@));
            out.push(r);
            assert(results_of(out@) =~= want.take(i + 1));
            i += 1;
        }
        assert(want.take(i as int) == want);
        Answers { schema: answers::SCHEMA, generated_uptime_secs: uptime, results: out }
    }
}

// ---------------------------------------------------------------------------
// Connecting
// ---------------------------------------------------------------------------

/// Why no TLS configuration can be made from the system's certificates.
pub open spec fn roots_error(added: nat, errors: nat, shown: Seq<char>) -> Option<Seq<char>> {
    if added == 0 {
        Some(
            "no CA certificates loaded from the system store ("@ + numeral(errors)
                + " error(s): "@ + shown + ")"@,
        )
    } else {
        None
    }
}

/// Decides whether `added` usable certificates are enough to go on; `errors`
/// is how many could not be loaded, and `shown` lists why.
pub fn check_roots(added: usize, errors: usize, shown: &str) -> (r: Result<(), String>)
    ensures
        r is Ok <==> roots_error(added as nat, errors as nat, shown@) is None,
        r matches Err(e) ==> roots_error(added as nat, errors as nat, shown@) == Some(e@),
{
    if added == 0 {
        let mut s = "no CA certificates loaded from the system store (".to_owned();
        s.append(number_text(errors as u64).as_str());
        s.append(" error(s): ");
        s.append(shown);
        s.append(")");
        Err(s)
    } else {
        Ok(())
    }
}

/// Whether `ServerName::try_from` accepts a text.
pub uninterp spec fn is_server_name(s: Seq<char>) -> bool;

/// `rustls::pki_types::ServerName::try_from`: `None` if it accepts the text,
/// otherwise the text of its error, which is always the same. Which texts it
/// accepts is a function of the text and is not stated.
#[verifier::external_body]
fn server_name_error(s: &str) -> (r: Option<String>)
    ensures
        r is None <==> is_server_name(s@),
        r matches Some(e) ==> e@ == "invalid dns name"@,
{
    match rustls::pki_types::ServerName::try_from(s.to_string()) {
        Ok(_) => None,
        Err(e) => Some(e.to_string()),
    }
}

/// Why a TLS server name cannot be used, given why it was not accepted.
pub open spec fn sni_error(error: Option<Seq<char>>) -> Option<Seq<char>> {
    match error {
        Some(e) => Some("bad server_name: "@ + e),
        None => None,
    }
}

/// Decides whether a TLS server name can be used, given why it was not
/// accepted.
pub fn server_name_verdict(error: Option<String>) -> (r: Result<(), String>)
    ensures
        r is Ok <==> error is None,
        r matches Err(e) ==> Some(e@) == sni_error(opt_text(error)),
{
    match error {
        Some(e) => {
            let mut s = "bad server_name: ".to_owned();
            s.append(e.as_str());
            Err(s)
        },
        None => Ok(()),
    }
}

/// Decides whether a TLS server name can be used.
pub fn check_server_name(server_name: &str) -> (r: Result<(), String>)
    ensures
        r is Ok <==> is_server_name(server_name@),
        r matches Err(e) ==> e@ == "bad server_name: "@ + "invalid dns name"@,
{
    server_name_verdict(server_name_error(server_name))
}

} // verus!
