//! What is accepted from the network, and what becomes of every name.

use vstd::prelude::*;

use crate::addr::Ipv4Addr;
use crate::answers::{Outcome, ResultView};
use crate::dns::{
    absolute, canonical, same_name, DataView, DnsNameView, RecordView, ResponseView, NO_ERROR,
};
use crate::plan::distinct;
use crate::policy::lemma_distinct_contains;
use crate::resolve::{
    alias_of, answer_for, chain_end, classification, final_owner, final_results, first_special,
    gives_addr, least_ttl, lookup_outcome, not_attempted, owned, record_addrs, unresolved,
    with_deadline, with_error, with_outcome, with_pending_error, ClassifiedView, ResolutionView,
    Settled, MAX_CNAME_HOPS,
};
use crate::validate::global_unicast;

verus! {

// ---------------------------------------------------------------------------
// Responses
// ---------------------------------------------------------------------------

/// Record `k` of the answer gives `ip` to the name that a query of `qname`
/// leads to.
pub open spec fn vouches(msg: ResponseView, qname: DnsNameView, k: int, ip: Ipv4Addr) -> bool {
    match final_owner(msg.answers, qname) {
        Some(owner) => 0 <= k < msg.answers.len() && msg.answers[k].data == DataView::A(ip)
            && same_name(msg.answers[k].name, owner),
        None => false,
    }
}

proof fn lemma_no_special(addrs: Seq<Ipv4Addr>, i: int)
    requires
        first_special(addrs) is None,
        0 <= i < addrs.len(),
    ensures
        global_unicast(addrs[i]),
    decreases addrs.len(),
{
    if i < addrs.len() - 1 {
        lemma_no_special(addrs.drop_last(), i);
    }
}

/// Elements of the list without repetitions are pairwise different.
proof fn lemma_distinct_unique(s: Seq<Ipv4Addr>)
    ensures
        distinct(s).no_duplicates(),
    decreases s.len(),
{
    if s.len() > 0 {
        lemma_distinct_unique(s.drop_last());
    }
}

/// An accepted answer is complete, without error and authenticated if that is
/// required. It has at least one address, none twice; each is a global unicast
/// address and comes from an A record of the name at the end of the CNAME
/// chain that starts at the queried name. Records of other names contribute
/// nothing.
pub proof fn law_accepted_answer(
    msg: ResponseView,
    qname: DnsNameView,
    require_authenticated: bool,
    addrs: Seq<Ipv4Addr>,
    min_ttl: u32,
)
    requires
        classification(msg, qname, require_authenticated) == (ClassifiedView::Resolved {
            addrs,
            min_ttl,
        }),
    ensures
        !msg.truncated,
        msg.rcode == NO_ERROR,
        require_authenticated ==> msg.authentic,
        addrs.len() > 0,
        addrs.no_duplicates(),
        forall|ip: Ipv4Addr| #[trigger]
            addrs.contains(ip) <==> exists|k: int| #[trigger] vouches(msg, qname, k, ip),
        forall|ip: Ipv4Addr| #[trigger] addrs.contains(ip) ==> global_unicast(ip),
{
    let owner = final_owner(msg.answers, qname)->0;
    let p = |r: RecordView| gives_addr(r, owner);
    let records = owned(msg.answers, owner);
    let all = record_addrs(records);
    lemma_distinct_unique(all);
    assert(addrs == distinct(all));
    lemma_distinct_contains(all, all[0]);
    assert(all.contains(all[0]));
    assert forall|ip: Ipv4Addr| #[trigger] addrs.contains(ip) implies global_unicast(ip)
        && exists|k: int| #[trigger] vouches(msg, qname, k, ip) by {
        lemma_distinct_contains(all, ip);
        let j = choose|j: int| 0 <= j < all.len() && all[j] == ip;
        lemma_no_special(all, j);
        let r = records[j];
        msg.answers.lemma_filter_pred(p, j);
        assert(gives_addr(r, owner));
        assert(records.contains(r));
        msg.answers.lemma_filter_contains_rev(p, r);
        let k = choose|k: int| 0 <= k < msg.answers.len() && msg.answers[k] == r;
        assert(vouches(msg, qname, k, ip));
    }
    assert forall|ip: Ipv4Addr|
        (exists|k: int| #[trigger] vouches(msg, qname, k, ip)) implies #[trigger] addrs.contains(
        ip,
    ) by {
        let k = choose|k: int| #[trigger] vouches(msg, qname, k, ip);
        assert(p(msg.answers[k]));
        msg.answers.lemma_filter_contains(p, k);
        let j = choose|j: int| 0 <= j < records.len() && records[j] == msg.answers[k];
        assert(all[j] == ip);
        lemma_distinct_contains(all, ip);
    }
}

proof fn lemma_least_ttl(records: Seq<RecordView>)
    requires
        records.len() > 0,
    ensures
        forall|i: int| 0 <= i < records.len() ==> least_ttl(records) <= (#[trigger] records[i]).ttl,
        exists|i: int| 0 <= i < records.len() && least_ttl(records) == (#[trigger] records[i]).ttl,
    decreases records.len(),
{
    let rest = records.drop_last();
    let n = records.len() - 1;
    if n == 0 {
        assert(least_ttl(rest) == u32::MAX);
        assert(least_ttl(records) == records[0].ttl);
    } else {
        lemma_least_ttl(rest);
        assert forall|i: int| 0 <= i < records.len() implies least_ttl(records) <= (
        #[trigger] records[i]).ttl by {
            if i < n {
                assert(rest[i] == records[i]);
            }
        }
        if records[n].ttl >= least_ttl(rest) {
            let i = choose|i: int| 0 <= i < rest.len() && least_ttl(rest) == (#[trigger] rest[i]).ttl;
            assert(records[i] == rest[i]);
        } else {
            assert(least_ttl(records) == records[n].ttl);
        }
    }
}

/// The time to live of an accepted answer is the smallest one of the records
/// that its addresses come from.
pub proof fn law_accepted_answer_has_least_ttl(
    msg: ResponseView,
    qname: DnsNameView,
    require_authenticated: bool,
    addrs: Seq<Ipv4Addr>,
    min_ttl: u32,
)
    requires
        classification(msg, qname, require_authenticated) == (ClassifiedView::Resolved {
            addrs,
            min_ttl,
        }),
    ensures
        forall|k: int, ip: Ipv4Addr| #[trigger]
            vouches(msg, qname, k, ip) ==> min_ttl <= msg.answers[k].ttl,
        exists|k: int, ip: Ipv4Addr| #[trigger]
            vouches(msg, qname, k, ip) && min_ttl == msg.answers[k].ttl,
{
    let owner = final_owner(msg.answers, qname)->0;
    let p = |r: RecordView| gives_addr(r, owner);
    let records = owned(msg.answers, owner);
    lemma_least_ttl(records);
    assert forall|k: int, ip: Ipv4Addr| #[trigger] vouches(msg, qname, k, ip) implies min_ttl
        <= msg.answers[k].ttl by {
        assert(p(msg.answers[k]));
        msg.answers.lemma_filter_contains(p, k);
        let j = choose|j: int| 0 <= j < records.len() && records[j] == msg.answers[k];
        assert(least_ttl(records) <= records[j].ttl);
    }
    let j = choose|j: int|
        0 <= j < records.len() && least_ttl(records) == (#[trigger] records[j]).ttl;
    let r = records[j];
    msg.answers.lemma_filter_pred(p, j);
    assert(records.contains(r));
    msg.answers.lemma_filter_contains_rev(p, r);
    let k = choose|k: int| 0 <= k < msg.answers.len() && msg.answers[k] == r;
    assert(vouches(msg, qname, k, r.data->A_0));
}

/// A record that is no alias changes no alias.
proof fn lemma_alias_insert(answers: Seq<RecordView>, k: int, r: RecordView, owner: DnsNameView)
    requires
        0 <= k <= answers.len(),
        !(r.data is Cname),
    ensures
        alias_of(answers.insert(k, r), owner) == alias_of(answers, owner),
    decreases answers.len(),
{
    let more = answers.insert(k, r);
    if k == answers.len() {
        assert(more.drop_last() =~= answers);
    } else {
        assert(more.drop_last() =~= answers.drop_last().insert(k, r));
        assert(more.last() == answers.last());
        lemma_alias_insert(answers.drop_last(), k, r, owner);
    }
}

/// A record that is no alias does not move the end of the chain.
pub proof fn lemma_chain_insert(
    answers: Seq<RecordView>,
    k: int,
    r: RecordView,
    owner: DnsNameView,
    seen: Set<DnsNameView>,
    hops: nat,
)
    requires
        0 <= k <= answers.len(),
        !(r.data is Cname),
    ensures
        chain_end(answers.insert(k, r), owner, seen, hops) == chain_end(answers, owner, seen, hops),
    decreases hops,
{
    lemma_alias_insert(answers, k, r, owner);
    if hops > 0 {
        match alias_of(answers, owner) {
            Some(t) => {
                lemma_chain_insert(
                    answers,
                    k,
                    r,
                    absolute(t),
                    seen.insert(canonical(absolute(t))),
                    (hops - 1) as nat,
                );
            },
            None => {},
        }
    }
}

/// Records of other names contribute nothing: an A record of any name but the
/// one at the end of the CNAME chain, put anywhere into an accepted answer,
/// changes nothing about it.
pub proof fn law_unrelated_records_do_not_matter(
    msg: ResponseView,
    qname: DnsNameView,
    require_authenticated: bool,
    k: int,
    r: RecordView,
)
    requires
        classification(msg, qname, require_authenticated) is Resolved,
        0 <= k <= msg.answers.len(),
        r.data is A,
        final_owner(msg.answers, qname) matches Some(owner) && !same_name(r.name, owner),
    ensures
        classification(
            (ResponseView { answers: msg.answers.insert(k, r), ..msg }),
            qname,
            require_authenticated,
        ) == classification(msg, qname, require_authenticated),
{
    let more = msg.answers.insert(k, r);
    let start = absolute(qname);
    let owner = final_owner(msg.answers, qname)->0;
    lemma_chain_insert(msg.answers, k, r, start, set![canonical(start)], MAX_CNAME_HOPS as nat);
    assert(final_owner(more, qname) == Some(owner));
    let p = |x: RecordView| gives_addr(x, owner);
    let (a, b) = (msg.answers.take(k), msg.answers.skip(k));
    assert(msg.answers =~= a + b);
    assert(more =~= a + seq![r] + b);
    Seq::filter_distributes_over_add(a, b, p);
    Seq::filter_distributes_over_add(a + seq![r], b, p);
    assert(a.push(r) =~= a + seq![r]);
    a.lemma_filter_push(r, p);
    assert(!p(r));
    assert(owned(more, owner) == owned(msg.answers, owner));
    assert(record_addrs(owned(msg.answers, owner)).len() > 0);
}

/// A negative answer counts only if it is complete and, if that is required,
/// authenticated.
pub proof fn law_negative_answer(
    msg: ResponseView,
    qname: DnsNameView,
    require_authenticated: bool,
    reason: Seq<char>,
)
    requires
        classification(msg, qname, require_authenticated) == ClassifiedView::Empty(reason),
    ensures
        !msg.truncated,
        require_authenticated ==> msg.authentic,
{
}

/// One non-global address of the name fails the whole answer: it is never
/// accepted, and a complete response without error that holds one is a failure
/// for which asking the same resolver again would not help.
pub proof fn law_non_global_address_fails_the_answer(
    msg: ResponseView,
    qname: DnsNameView,
    require_authenticated: bool,
    k: int,
    ip: Ipv4Addr,
)
    requires
        vouches(msg, qname, k, ip),
        !global_unicast(ip),
    ensures
        !(classification(msg, qname, require_authenticated) is Resolved),
        !msg.truncated && msg.rcode == NO_ERROR ==> {
            let c = classification(msg, qname, require_authenticated);
            c is Transient && !c->retry
        },
{
    let owner = final_owner(msg.answers, qname)->0;
    let p = |r: RecordView| gives_addr(r, owner);
    let records = owned(msg.answers, owner);
    let all = record_addrs(records);
    assert(p(msg.answers[k]));
    msg.answers.lemma_filter_contains(p, k);
    let j = choose|j: int| 0 <= j < records.len() && records[j] == msg.answers[k];
    assert(all[j] == ip);
    if first_special(all) is None {
        lemma_no_special(all, j);
    }
}

/// The case of letters in the queried name does not matter.
pub proof fn law_case_does_not_matter(
    msg: ResponseView,
    a: DnsNameView,
    b: DnsNameView,
    require_authenticated: bool,
)
    requires
        same_name(absolute(a), absolute(b)),
    ensures
        classification(msg, a, require_authenticated) == classification(
            msg,
            b,
            require_authenticated,
        ),
{
    let (x, y) = (absolute(a), absolute(b));
    lemma_alias_case(msg.answers, x, y);
    assert(set![canonical(x)] == set![canonical(y)]);
    match final_owner(msg.answers, a) {
        Some(o) => {
            let q = final_owner(msg.answers, b)->0;
            lemma_answer_case(msg.answers, o, q);
        },
        None => {},
    }
}

proof fn lemma_alias_case(answers: Seq<RecordView>, x: DnsNameView, y: DnsNameView)
    requires
        same_name(x, y),
    ensures
        alias_of(answers, x) == alias_of(answers, y),
    decreases answers.len(),
{
    if answers.len() > 0 {
        lemma_alias_case(answers.drop_last(), x, y);
    }
}

proof fn lemma_answer_case(answers: Seq<RecordView>, x: DnsNameView, y: DnsNameView)
    requires
        same_name(x, y),
    ensures
        answer_for(answers, x) == answer_for(answers, y),
{
    let px = |r: RecordView| gives_addr(r, x);
    let py = |r: RecordView| gives_addr(r, y);
    assert(px =~= py);
    let ux = |r: RecordView| r.data is A && !same_name(r.name, x);
    let uy = |r: RecordView| r.data is A && !same_name(r.name, y);
    assert(ux =~= uy);
}

// ---------------------------------------------------------------------------
// Attempts
// ---------------------------------------------------------------------------

/// The outcome allows for asking again.
pub open spec fn retryable(c: ClassifiedView) -> bool {
    c matches ClassifiedView::Transient { retry, .. } && retry
}

/// A resolver is asked again only after retryable failures, and never more
/// often than there are attempts.
pub proof fn law_attempts_are_bounded(
    name: Seq<char>,
    server: Seq<char>,
    attempts: nat,
    seen: Seq<ClassifiedView>,
)
    requires
        lookup_outcome(name, server, attempts, seen) is None,
    ensures
        seen.len() < attempts,
        forall|k: int| 0 <= k < seen.len() ==> retryable(#[trigger] seen[k]),
    decreases seen.len(),
{
    if seen.len() > 0 {
        let d = seen.drop_last();
        law_attempts_are_bounded(name, server, attempts, d);
        assert forall|k: int| 0 <= k < seen.len() implies retryable(#[trigger] seen[k]) by {
            if k < d.len() {
                assert(retryable(d[k]));
            }
        }
    }
}

/// Once a name has come to something, further outcomes do not change it.
pub proof fn law_settled_lookup_stays(
    name: Seq<char>,
    server: Seq<char>,
    attempts: nat,
    seen: Seq<ClassifiedView>,
    c: ClassifiedView,
)
    requires
        lookup_outcome(name, server, attempts, seen) is Some,
    ensures
        lookup_outcome(name, server, attempts, seen.push(c)) == lookup_outcome(
            name,
            server,
            attempts,
            seen,
        ),
{
    assert(seen.push(c).drop_last() =~= seen);
}

/// A lookup that yields a result yields it for the name that was asked for,
/// names the resolver, and takes it over from the last response.
pub proof fn law_lookup_result(
    name: Seq<char>,
    server: Seq<char>,
    attempts: nat,
    seen: Seq<ClassifiedView>,
    r: ResultView,
)
    requires
        lookup_outcome(name, server, attempts, seen) == Some(Ok::<ResultView, Seq<char>>(r)),
    ensures
        r.name == name,
        r.server == Some(server),
        r.outcome != Outcome::Transient,
        r.outcome == Outcome::Resolved <==> r.min_ttl is Some,
        exists|k: int|
            0 <= k < seen.len() && match #[trigger] seen[k] {
                ClassifiedView::Resolved { addrs, min_ttl } => r.outcome == Outcome::Resolved
                    && r.addrs == addrs && r.min_ttl == Some(min_ttl),
                ClassifiedView::Empty(reason) => r.outcome == Outcome::Empty && r.addrs.len() == 0
                    && r.error == Some(reason),
                ClassifiedView::Transient { .. } => false,
            },
    decreases seen.len(),
{
    if seen.len() > 0 {
        let d = seen.drop_last();
        let n = seen.len() - 1;
        if lookup_outcome(name, server, attempts, d) is Some {
            law_lookup_result(name, server, attempts, d, r);
            let k = choose|k: int|
                0 <= k < d.len() && match #[trigger] d[k] {
                    ClassifiedView::Resolved { addrs, min_ttl } => r.outcome == Outcome::Resolved
                        && r.addrs == addrs && r.min_ttl == Some(min_ttl),
                    ClassifiedView::Empty(reason) => r.outcome == Outcome::Empty && r.addrs.len()
                        == 0 && r.error == Some(reason),
                    ClassifiedView::Transient { .. } => false,
                };
            assert(seen[k] == d[k]);
        } else {
            assert(seen[n] == seen.last());
        }
    }
}

// ---------------------------------------------------------------------------
// All names
// ---------------------------------------------------------------------------

/// What can happen in the course of a resolve run.
pub enum Event {
    /// The query for name `i` completed.
    Settle(int, Settled),
    TlsFailed(Seq<char>),
    ConnectFailed(Seq<char>),
    /// The budget, of so many seconds, expired.
    Deadline(nat),
}

/// The names after an event.
pub open spec fn after_event(v: ResolutionView, e: Event) -> ResolutionView {
    match e {
        Event::Settle(i, o) => if 0 <= i < v.names.len() {
            with_outcome(v, i, o)
        } else {
            v
        },
        Event::TlsFailed(t) => with_error(v, t),
        Event::ConnectFailed(t) => with_pending_error(v, t),
        Event::Deadline(secs) => with_deadline(v, secs),
    }
}

/// The names after a series of events.
pub open spec fn after_events(v: ResolutionView, es: Seq<Event>) -> ResolutionView
    decreases es.len(),
{
    if es.len() == 0 {
        v
    } else {
        after_event(after_events(v, es.drop_last()), es.last())
    }
}

/// Whatever happens, there is one result per name, in order.
pub proof fn law_one_result_per_name(names: Seq<Seq<char>>, es: Seq<Event>)
    ensures
        after_events(not_attempted(names), es).wf(),
        after_events(not_attempted(names), es).names == names,
        final_results(after_events(not_attempted(names), es)).len() == names.len(),
    decreases es.len(),
{
    if es.len() > 0 {
        law_one_result_per_name(names, es.drop_last());
    }
}

/// An answer that has arrived is never lost: unless another answer for the
/// same name arrives, it is the result, whatever else fails or expires.
pub proof fn law_settled_answers_are_kept(
    names: Seq<Seq<char>>,
    before: Seq<Event>,
    i: int,
    r: ResultView,
    after: Seq<Event>,
)
    requires
        0 <= i < names.len(),
        forall|k: int|
            0 <= k < after.len() ==> !((#[trigger] after[k]) matches Event::Settle(j, Ok(_)) && j == i),
    ensures
        final_results(
            after_events(
                not_attempted(names),
                before.push(Event::Settle(i, Ok(r))) + after,
            ),
        )[i] == r,
{
    law_one_result_per_name(names, before.push(Event::Settle(i, Ok(r))) + after);
    lemma_kept(names, before, i, r, after);
}

proof fn lemma_kept(
    names: Seq<Seq<char>>,
    before: Seq<Event>,
    i: int,
    r: ResultView,
    after: Seq<Event>,
)
    requires
        0 <= i < names.len(),
        forall|k: int|
            0 <= k < after.len() ==> !((#[trigger] after[k]) matches Event::Settle(j, Ok(_)) && j == i),
    ensures
        after_events(
            not_attempted(names),
            before.push(Event::Settle(i, Ok(r))) + after,
        ).results[i] == Some(r),
    decreases after.len(),
{
    let es = before.push(Event::Settle(i, Ok(r)));
    let all = es + after;
    if after.len() == 0 {
        assert(all =~= es);
        assert(es.drop_last() =~= before);
        law_one_result_per_name(names, before);
    } else {
        let d = after.drop_last();
        assert(all.drop_last() =~= es + d);
        assert forall|k: int| 0 <= k < d.len() implies !((#[trigger] d[k]) matches Event::Settle(j, Ok(_)) && j == i) by {
            assert(after[k] == d[k]);
        }
        lemma_kept(names, before, i, r, d);
        law_one_result_per_name(names, es + d);
        assert(all.last() == after[after.len() - 1]);
    }
}

/// A name for which no answer ever arrived is reported as transient, without
/// addresses and with the last error.
pub proof fn law_unsettled_names_are_transient(names: Seq<Seq<char>>, es: Seq<Event>, i: int)
    requires
        0 <= i < names.len(),
        forall|k: int|
            0 <= k < es.len() ==> !((#[trigger] es[k]) matches Event::Settle(j, Ok(_)) && j == i),
    ensures
        final_results(after_events(not_attempted(names), es))[i] == unresolved(
            names[i],
            after_events(not_attempted(names), es).errors[i],
        ),
        after_events(not_attempted(names), es).results[i] is None,
    decreases es.len(),
{
    law_one_result_per_name(names, es);
    if es.len() > 0 {
        let d = es.drop_last();
        assert forall|k: int| 0 <= k < d.len() implies !((#[trigger] d[k]) matches Event::Settle(j, Ok(_)) && j == i) by {
            assert(es[k] == d[k]);
        }
        law_unsettled_names_are_transient(names, d, i);
        law_one_result_per_name(names, d);
        assert(es.last() == es[es.len() - 1]);
    }
}

} // verus!
