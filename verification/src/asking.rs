//! How often a resolver is asked, and what becomes of every name.

use vstd::prelude::*;

use crate::addr::{addr_text, Ipv4Addr};
use crate::answers::{Outcome, ResultView};
use crate::dns::DnsNameView;
use crate::number::numeral;
use crate::resolve::{
    asked_name, classification, final_results, lookup_outcome, not_attempted, reply_outcome,
    roots_error, server_form, sni_error, with_deadline, with_error, with_outcome,
    with_pending_error, ClassifiedView, Lookup, QueryReply, ResolutionView, Settled,
};

verus! {

// ---------------------------------------------------------------------------
// One query
// ---------------------------------------------------------------------------

/// What a query comes to if there is no response: in each case it may be asked
/// again. A response comes to what it says.
pub proof fn law_missing_responses(
    reply: QueryReply,
    qname: DnsNameView,
    require_authenticated: bool,
)
    ensures
        ({
            let c = reply_outcome(reply, qname, require_authenticated);
            match reply {
                QueryReply::Timeout => c == (ClassifiedView::Transient {
                    reason: "timeout"@,
                    retry: true,
                }),
                QueryReply::Closed => c == (ClassifiedView::Transient {
                    reason: "connection closed"@,
                    retry: true,
                }),
                QueryReply::Failed(e) => c == (ClassifiedView::Transient {
                    reason: "dns error: "@ + e@,
                    retry: true,
                }),
                QueryReply::Answer(msg) => c == classification(
                    msg@,
                    qname,
                    require_authenticated,
                ),
            }
        }),
{
}

/// The name that is asked for has the labels of the configured one and is
/// absolute; a name that cannot be parsed is a failure for good.
pub proof fn law_asked_name(n: DnsNameView, e: Seq<char>)
    ensures
        asked_name(Ok(n)) matches Ok(q) && q.labels == n.labels && q.fqdn,
        asked_name(Err(e)) == Err::<DnsNameView, ClassifiedView>(
            ClassifiedView::Transient { reason: "invalid name: "@ + e, retry: false },
        ),
{
}

// ---------------------------------------------------------------------------
// One name on one resolver
// ---------------------------------------------------------------------------

/// Failures after which asking again can help, and nothing else.
pub open spec fn all_retryable(seen: Seq<ClassifiedView>) -> bool {
    forall|k: int| 0 <= k < seen.len() ==> (#[trigger] seen[k]) is Transient && seen[k]->retry
}

proof fn lemma_goes_on(
    name: Seq<char>,
    server: Seq<char>,
    attempts: nat,
    seen: Seq<ClassifiedView>,
)
    requires
        all_retryable(seen),
        seen.len() < attempts,
    ensures
        lookup_outcome(name, server, attempts, seen) is None,
    decreases seen.len(),
{
    if seen.len() > 0 {
        let d = seen.drop_last();
        assert forall|k: int| 0 <= k < d.len() implies (#[trigger] d[k]) is Transient && d[k]->retry by {
            assert(d[k] == seen[k]);
        }
        lemma_goes_on(name, server, attempts, d);
        assert(seen[seen.len() - 1] is Transient);
    }
}

/// A resolver is asked until it gives something that settles the name or the
/// attempts are used up. After fewer retryable failures than attempts it is
/// asked again; after as many the last reason is reported, with the resolver.
pub proof fn law_every_attempt_is_made(
    name: Seq<char>,
    server: Seq<char>,
    attempts: nat,
    seen: Seq<ClassifiedView>,
)
    requires
        all_retryable(seen),
    ensures
        seen.len() < attempts ==> lookup_outcome(name, server, attempts, seen) is None,
        seen.len() == attempts && attempts > 0 ==> lookup_outcome(name, server, attempts, seen)
            == Some(Err::<ResultView, Seq<char>>(server + ": "@ + seen.last()->reason)),
        attempts == 0 && seen.len() == 0 ==> lookup_outcome(name, server, attempts, seen) == Some(
            Err::<ResultView, Seq<char>>("no attempt"@),
        ),
{
    if seen.len() < attempts {
        lemma_goes_on(name, server, attempts, seen);
    } else if seen.len() == attempts && attempts > 0 {
        let d = seen.drop_last();
        assert forall|k: int| 0 <= k < d.len() implies (#[trigger] d[k]) is Transient && d[k]->retry by {
            assert(d[k] == seen[k]);
        }
        lemma_goes_on(name, server, attempts, d);
        assert(seen[seen.len() - 1] is Transient);
    }
}

/// What settles a name, while there are attempts left: addresses, with the time
/// to live and the resolver they come from; a negative answer, with its reason;
/// or a failure that asking again cannot mend.
pub proof fn law_first_verdict_settles(
    name: Seq<char>,
    server: Seq<char>,
    attempts: nat,
    seen: Seq<ClassifiedView>,
    c: ClassifiedView,
)
    requires
        all_retryable(seen),
        seen.len() < attempts,
    ensures
        ({
            let o = lookup_outcome(name, server, attempts, seen.push(c));
            &&& c is Resolved ==> o == Some(
                Ok::<ResultView, Seq<char>>(
                    (ResultView {
                        name,
                        outcome: Outcome::Resolved,
                        addrs: c->addrs,
                        min_ttl: Some(c->min_ttl),
                        server: Some(server),
                        error: None,
                    }),
                ),
            )
            &&& c is Empty ==> o == Some(
                Ok::<ResultView, Seq<char>>(
                    (ResultView {
                        name,
                        outcome: Outcome::Empty,
                        addrs: Seq::empty(),
                        min_ttl: None,
                        server: Some(server),
                        error: Some(c->Empty_0),
                    }),
                ),
            )
            &&& c is Transient && !c->retry ==> o == Some(
                Err::<ResultView, Seq<char>>(server + ": "@ + c->reason),
            )
        }),
{
    lemma_goes_on(name, server, attempts, seen);
    assert(seen.push(c).drop_last() =~= seen);
}

/// A lookup stands where the outcomes of its queries have brought it.
pub proof fn law_lookup_follows_its_history(l: Lookup)
    ensures
        l.settled() == lookup_outcome(l.name(), l.server(), l.attempts(), l.history()),
{
}

/// A resolver is named by its address and port.
pub proof fn law_resolver_text(ip: Ipv4Addr, port: u16)
    ensures
        server_form(ip, port) == addr_text(ip) + ":"@ + numeral(port as nat),
{
}

// ---------------------------------------------------------------------------
// All names
// ---------------------------------------------------------------------------

/// A name is unsettled as long as it has no result; each name has its place
/// among the results and among the reasons.
pub proof fn law_unsettled_names(v: ResolutionView, i: int)
    ensures
        v.unsettled(i) <==> v.results[i] is None,
        v.wf() <==> v.results.len() == v.names.len() && v.errors.len() == v.names.len(),
{
}

/// At first no name is settled, and each has the same reason.
pub proof fn law_resolution_starts(names: Seq<Seq<char>>, i: int)
    requires
        0 <= i < names.len(),
    ensures
        not_attempted(names).wf(),
        not_attempted(names).names == names,
        not_attempted(names).results[i] is None,
        not_attempted(names).errors[i] == "not attempted"@,
{
}

/// The outcome of one name is recorded with that name and leaves the others
/// alone: a result settles it, a reason replaces the one before.
pub proof fn law_outcome_is_recorded(v: ResolutionView, i: int, o: Settled, k: int)
    requires
        v.wf(),
        0 <= i < v.names.len(),
        0 <= k < v.names.len(),
    ensures
        ({
            let w = with_outcome(v, i, o);
            &&& w.wf()
            &&& w.names == v.names
            &&& k != i ==> w.results[k] == v.results[k] && w.errors[k] == v.errors[k]
            &&& o matches Ok(r) ==> w.results[i] == Some(r) && w.errors[i] == v.errors[i]
            &&& o matches Err(e) ==> w.results[i] == v.results[i] && w.errors[i] == e
        }),
{
}

/// What fails for all names at once never touches a result: without TLS every
/// name gets the reason, without a connection every name that is not settled,
/// and once the time is over each of those gets that besides its own reason.
pub proof fn law_common_failures(v: ResolutionView, e: Seq<char>, secs: nat, k: int)
    requires
        v.wf(),
        0 <= k < v.names.len(),
    ensures
        ({
            let (t, c, d) = (with_error(v, e), with_pending_error(v, e), with_deadline(v, secs));
            let open = v.results[k] is None;
            &&& t.wf() && c.wf() && d.wf()
            &&& t.names == v.names && c.names == v.names && d.names == v.names
            &&& t.results == v.results && c.results == v.results && d.results == v.results
            &&& t.errors[k] == e
            &&& c.errors[k] == (if open {
                e
            } else {
                v.errors[k]
            })
            &&& d.errors[k] == (if open {
                "deadline of "@ + numeral(secs) + "s exceeded ("@ + v.errors[k] + ")"@
            } else {
                v.errors[k]
            })
        }),
{
}

/// In the end each name has its result, in order; a name without one is
/// reported as a transient failure, without addresses and with its reason.
pub proof fn law_every_name_is_reported(v: ResolutionView, k: int)
    requires
        v.wf(),
        0 <= k < v.names.len(),
    ensures
        final_results(v).len() == v.names.len(),
        v.results[k] matches Some(r) ==> final_results(v)[k] == r,
        v.results[k] is None ==> final_results(v)[k] == (ResultView {
            name: v.names[k],
            outcome: Outcome::Transient,
            addrs: Seq::empty(),
            min_ttl: None,
            server: None,
            error: Some(v.errors[k]),
        }),
{
}

// ---------------------------------------------------------------------------
// Connecting
// ---------------------------------------------------------------------------

/// One usable certificate is enough to go on; without any the reason tells how
/// many could not be loaded. And a server name is refused with the reason why.
pub proof fn law_connecting_needs(added: nat, errors: nat, shown: Seq<char>, e: Seq<char>)
    ensures
        added > 0 ==> roots_error(added, errors, shown) is None,
        added == 0 ==> roots_error(added, errors, shown) == Some(
            "no CA certificates loaded from the system store ("@ + numeral(errors)
                + " error(s): "@ + shown + ")"@,
        ),
        sni_error(None) is None,
        sni_error(Some(e)) == Some("bad server_name: "@ + e),
{
}

} // verus!
