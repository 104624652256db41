//! Which addresses a plan owes to which names, said of the answers and the
//! current chain alone.

use vstd::prelude::*;

use crate::addr::{addr_texts, Ipv4Addr};
use crate::addr_map::AddrNames;
use crate::answers::{lemma_result_at, result_at, NameResult, Outcome};
use crate::config::{names_of, Config, Endpoint};
use crate::number::numeral;
use crate::order::{addr_lt, lemma_addr_order, lemma_in_order_finite};
use crate::plan::{
    addrs_of, distinct, forbidden, kernel_states, offered, plan_for, planned_states, Source,
};
use crate::policy::{lemma_addrs_of, lemma_distinct_contains, lemma_forbidden, lemma_offered_finite};
use crate::text::joined;
use crate::validate::global_unicast;

verus! {

/// Result `k` is the one that counts for `name`: the first that bears it.
pub open spec fn counts_for(results: Seq<NameResult>, name: Seq<char>, k: int) -> bool {
    &&& 0 <= k < results.len()
    &&& results[k].name@ == name
    &&& forall|j: int| 0 <= j < k ==> (#[trigger] results[j]).name@ != name
}

/// A positive answer that may be used: it has addresses, and all of them are
/// global unicast ones.
pub open spec fn usable(r: NameResult) -> bool {
    &&& r.outcome == Outcome::Resolved
    &&& r.addrs@.len() > 0
    &&& forall|x: Ipv4Addr| #[trigger] r.addrs@.contains(x) ==> global_unicast(x)
}

/// Nothing that was answered settles what `name` has.
pub open spec fn undecided(results: Seq<NameResult>, name: Seq<char>) -> bool {
    forall|k: int| #[trigger]
        counts_for(results, name, k) ==> results[k].outcome != Outcome::Empty && !usable(results[k])
}

/// `ip` is due to `name`: the answer for the name is usable and lists it, or
/// there is no answer that settles the name and the chain has it already.
pub open spec fn due(
    results: Seq<NameResult>,
    production: AddrNames,
    name: Seq<char>,
    ip: Ipv4Addr,
) -> bool {
    ||| exists|k: int| #[trigger]
        counts_for(results, name, k) && usable(results[k]) && results[k].addrs@.contains(ip)
    ||| undecided(results, name) && production.contains_key(ip) && production[ip].contains(name)
}

/// At most one result counts, and it is the one found.
proof fn lemma_counts(results: Seq<NameResult>, name: Seq<char>)
    ensures
        forall|k: int| #[trigger]
            counts_for(results, name, k) <==> result_at(results, name) == Some(k),
{
    lemma_result_at(results, name);
    assert forall|k: int| #[trigger]
        counts_for(results, name, k) <==> result_at(results, name) == Some(k) by {
        if counts_for(results, name, k) {
            assert(results[k].name@ == name);
            match result_at(results, name) {
                Some(i) => {
                    if i < k {
                        assert(results[i].name@ != name);
                    }
                },
                None => {},
            }
        }
    }
}

/// An answer is usable exactly if it has addresses and none is forbidden.
proof fn lemma_usable(r: NameResult)
    ensures
        usable(r) <==> r.outcome == Outcome::Resolved && r.addrs@.len() > 0 && forbidden(
            r.addrs@,
        ).len() == 0,
{
    let p = |x: Ipv4Addr| !global_unicast(x);
    let bad = forbidden(r.addrs@);
    if bad.len() == 0 {
        assert forall|x: Ipv4Addr| #[trigger] r.addrs@.contains(x) implies global_unicast(x) by {
            lemma_forbidden(r.addrs@, x);
        }
    } else {
        r.addrs@.lemma_filter_pred(p, 0);
        assert(bad.contains(bad[0]));
        r.addrs@.lemma_filter_contains_rev(p, bad[0]);
        assert(r.addrs@.contains(bad[0]));
        assert(!global_unicast(bad[0]));
    }
}

proof fn lemma_state_is_due(
    endpoints: Seq<Endpoint>,
    results: Seq<NameResult>,
    production: AddrNames,
    i: int,
    ip: Ipv4Addr,
)
    requires
        production.dom().finite(),
        0 <= i < endpoints.len(),
    ensures
        planned_states(endpoints, results, production)[i].addrs.contains(ip) <==> due(
            results,
            production,
            names_of(endpoints)[i],
            ip,
        ),
{
    let name = names_of(endpoints)[i];
    lemma_counts(results, name);
    lemma_result_at(results, name);
    lemma_addrs_of(production, name);
    match result_at(results, name) {
        Some(k) => {
            assert(counts_for(results, name, k));
            lemma_usable(results[k]);
            lemma_distinct_contains(results[k].addrs@, ip);
        },
        None => {},
    }
}

/// A plan keeps to what is due. Take the set of all addresses that are due to
/// some endpoint. The plan records an error exactly if that set is larger than
/// `max_addresses`, and the error tells both numbers. Otherwise the production
/// chain has exactly the addresses of the set, each with exactly the names it
/// is due to, however many addresses the chain had before.
pub proof fn law_plan_holds_what_is_due(
    cfg: Config,
    results: Seq<NameResult>,
    production: AddrNames,
    maintenance: AddrNames,
    all: Set<Ipv4Addr>,
)
    requires
        production.dom().finite(),
        forall|ip: Ipv4Addr| #[trigger]
            all.contains(ip) <==> exists|i: int|
                0 <= i < cfg.endpoints@.len() && due(
                    results,
                    production,
                    #[trigger] names_of(cfg.endpoints@)[i],
                    ip,
                ),
    ensures
        ({
            let plan = plan_for(cfg, results, production, maintenance);
            let max = cfg.firewall.max_addresses as nat;
            &&& all.finite()
            &&& plan.error is Some <==> all.len() > max
            &&& plan.error matches Some(e) ==> e == "resolved "@ + numeral(all.len())
                + " addresses, more than max_addresses="@ + numeral(max)
                + "; keeping previous chain"@
            &&& all.len() > max ==> plan.production == production
            &&& all.len() <= max ==> plan.production.dom() == all
            &&& all.len() <= max ==> forall|ip: Ipv4Addr, n: Seq<char>|
                all.contains(ip) ==> (#[trigger] plan.production[ip].contains(n) <==> exists|
                    i: int,
                |
                    0 <= i < cfg.endpoints@.len() && #[trigger] names_of(cfg.endpoints@)[i] == n
                        && due(results, production, n, ip))
        }),
{
    let plan = plan_for(cfg, results, production, maintenance);
    let names = planned_states(cfg.endpoints@, results, production);
    let labels = names_of(cfg.endpoints@);
    let wanted = offered(names);
    lemma_offered_finite(names);
    assert forall|ip: Ipv4Addr| wanted.dom().contains(ip) <==> all.contains(ip) by {
        if wanted.dom().contains(ip) {
            let i = choose|i: int| 0 <= i < names.len() && (#[trigger] names[i]).addrs.contains(ip);
            lemma_state_is_due(cfg.endpoints@, results, production, i, ip);
            assert(due(results, production, labels[i], ip));
        }
        if all.contains(ip) {
            let i = choose|i: int|
                0 <= i < cfg.endpoints@.len() && due(results, production, #[trigger] labels[i], ip);
            lemma_state_is_due(cfg.endpoints@, results, production, i, ip);
            assert(names[i].addrs.contains(ip));
        }
    }
    assert(wanted.dom() =~= all);
    if plan.error is None {
        assert forall|ip: Ipv4Addr, n: Seq<char>| all.contains(ip) implies (
        #[trigger] plan.production[ip].contains(n) <==> exists|i: int|
            0 <= i < cfg.endpoints@.len() && #[trigger] labels[i] == n && due(
                results,
                production,
                n,
                ip,
            )) by {
            if plan.production[ip].contains(n) {
                let i = choose|i: int|
                    0 <= i < names.len() && (#[trigger] names[i]).addrs.contains(ip)
                        && names[i].name == n;
                lemma_state_is_due(cfg.endpoints@, results, production, i, ip);
                assert(labels[i] == n);
            }
            if exists|i: int|
                0 <= i < cfg.endpoints@.len() && #[trigger] labels[i] == n && due(
                    results,
                    production,
                    n,
                    ip,
                ) {
                let i = choose|i: int|
                    0 <= i < cfg.endpoints@.len() && #[trigger] labels[i] == n && due(
                        results,
                        production,
                        n,
                        ip,
                    );
                lemma_state_is_due(cfg.endpoints@, results, production, i, ip);
                assert(names[i].addrs.contains(ip) && names[i].name == n);
            }
        }
    }
}

/// Within the limit every address of every usable answer is let through, under
/// the name that was asked for, whatever the chain held before; and so is every
/// address that a name without a settling answer already had.
pub proof fn law_due_address_is_let_through(
    cfg: Config,
    results: Seq<NameResult>,
    production: AddrNames,
    maintenance: AddrNames,
    i: int,
    ip: Ipv4Addr,
)
    requires
        production.dom().finite(),
        0 <= i < cfg.endpoints@.len(),
        due(results, production, names_of(cfg.endpoints@)[i], ip),
        plan_for(cfg, results, production, maintenance).error is None,
    ensures
        ({
            let plan = plan_for(cfg, results, production, maintenance);
            &&& plan.production.contains_key(ip)
            &&& plan.production[ip].contains(names_of(cfg.endpoints@)[i])
            &&& plan.maintenance.contains_key(ip)
            &&& plan.maintenance[ip].contains(names_of(cfg.endpoints@)[i])
        }),
{
    let names = planned_states(cfg.endpoints@, results, production);
    lemma_state_is_due(cfg.endpoints@, results, production, i, ip);
    assert(names[i].addrs.contains(ip));
    assert(names[i].name == names_of(cfg.endpoints@)[i]);
}

/// The maintenance chain takes up the production chain and nothing else: an
/// address has a name there exactly if it had it before or has it in the
/// planned production chain.
pub proof fn law_maintenance_is_the_union(
    cfg: Config,
    results: Seq<NameResult>,
    production: AddrNames,
    maintenance: AddrNames,
    ip: Ipv4Addr,
    n: Seq<char>,
)
    ensures
        ({
            let plan = plan_for(cfg, results, production, maintenance);
            &&& plan.maintenance.contains_key(ip) <==> maintenance.contains_key(ip)
                || plan.production.contains_key(ip)
            &&& plan.maintenance.contains_key(ip) && plan.maintenance[ip].contains(n) <==> (
            maintenance.contains_key(ip) && maintenance[ip].contains(n)) || (
            plan.production.contains_key(ip) && plan.production[ip].contains(n))
        }),
{
}

/// What a plan tells about each endpoint. There is one state per endpoint, in
/// the order of the configuration, under its name. Unless the limit was
/// exceeded, the state is fresh exactly if the answer that counts is usable,
/// empty exactly if that answer is negative, and otherwise it is last known
/// good or missing, by whether the chain has addresses of the name. The
/// addresses are those that are due to the name.
pub proof fn law_states_tell_where_addresses_come_from(
    cfg: Config,
    results: Seq<NameResult>,
    production: AddrNames,
    maintenance: AddrNames,
    i: int,
)
    requires
        production.dom().finite(),
        0 <= i < cfg.endpoints@.len(),
    ensures
        ({
            let plan = plan_for(cfg, results, production, maintenance);
            let name = names_of(cfg.endpoints@)[i];
            let s = plan.names[i];
            let known = exists|ip: Ipv4Addr| #[trigger]
                production.contains_key(ip) && production[ip].contains(name);
            &&& plan.names.len() == cfg.endpoints@.len()
            &&& s.name == name
            &&& s.required == cfg.endpoints@[i].required
            &&& s.addrs.no_duplicates()
            &&& plan.error is None ==> {
                &&& forall|ip: Ipv4Addr| #[trigger]
                    s.addrs.contains(ip) <==> due(results, production, name, ip)
                &&& s.source == Source::Fresh <==> exists|k: int| #[trigger]
                    counts_for(results, name, k) && usable(results[k])
                &&& s.source == Source::Empty <==> exists|k: int| #[trigger]
                    counts_for(results, name, k) && results[k].outcome == Outcome::Empty
                &&& s.source == Source::LastKnownGood <==> undecided(results, name) && known
                &&& s.source == Source::Missing <==> undecided(results, name) && !known
            }
            &&& plan.error is Some ==> {
                &&& forall|ip: Ipv4Addr| #[trigger]
                    s.addrs.contains(ip) <==> production.contains_key(ip)
                        && production[ip].contains(name)
                &&& s.source == (if known {
                    Source::LastKnownGood
                } else {
                    Source::Missing
                })
                &&& s.error == plan.error
            }
            &&& s.outcome == (match s.source {
                Source::Fresh => Outcome::Resolved,
                Source::Empty => Outcome::Empty,
                Source::LastKnownGood => Outcome::Transient,
                Source::Missing => Outcome::Transient,
            })
        }),
{
    let plan = plan_for(cfg, results, production, maintenance);
    let name = names_of(cfg.endpoints@)[i];
    let s = plan.names[i];
    let was = addrs_of(production, name);
    lemma_counts(results, name);
    lemma_result_at(results, name);
    lemma_addrs_of(production, name);
    lemma_addrs_of_unique(production, name);
    if was.len() > 0 {
        assert(was.contains(was[0]));
    } else {
        assert forall|ip: Ipv4Addr| !(production.contains_key(ip) && production[ip].contains(name))
            by {
            assert(!was.contains(ip));
        }
    }
    match result_at(results, name) {
        Some(k) => {
            assert(counts_for(results, name, k));
            lemma_usable(results[k]);
            lemma_distinct_order(results[k].addrs@);
        },
        None => {},
    }
    if plan.error is None {
        assert forall|ip: Ipv4Addr| #[trigger]
            s.addrs.contains(ip) <==> due(results, production, name, ip) by {
            lemma_state_is_due(cfg.endpoints@, results, production, i, ip);
        }
    }
}

/// What the chain alone tells about each endpoint, for a given reason: the
/// addresses that carry its name, in ascending order, as last known good, or
/// that there are none; and the reason.
pub proof fn law_chain_tells_about_endpoints(
    endpoints: Seq<Endpoint>,
    production: AddrNames,
    reason: Seq<char>,
    i: int,
)
    requires
        production.dom().finite(),
        0 <= i < endpoints.len(),
    ensures
        ({
            let all = kernel_states(endpoints, production, reason);
            let s = all[i];
            let name = names_of(endpoints)[i];
            let known = exists|ip: Ipv4Addr| #[trigger]
                production.contains_key(ip) && production[ip].contains(name);
            &&& all.len() == endpoints.len()
            &&& s.name == name
            &&& s.required == endpoints[i].required
            &&& s.outcome == Outcome::Transient
            &&& s.source == (if known {
                Source::LastKnownGood
            } else {
                Source::Missing
            })
            &&& forall|ip: Ipv4Addr| #[trigger]
                s.addrs.contains(ip) <==> production.contains_key(ip) && production[ip].contains(
                    name,
                )
            &&& forall|a: int, b: int|
                0 <= a < b < s.addrs.len() ==> (#[trigger] s.addrs[a]).bits < (
                #[trigger] s.addrs[b]).bits
            &&& s.error == Some(reason)
        }),
{
    let name = names_of(endpoints)[i];
    let was = addrs_of(production, name);
    lemma_addrs_of(production, name);
    lemma_addrs_of_unique(production, name);
    if was.len() > 0 {
        assert(was.contains(was[0]));
    } else {
        assert forall|ip: Ipv4Addr| !(production.contains_key(ip) && production[ip].contains(name))
            by {
            assert(!was.contains(ip));
        }
    }
}

/// Why a name has no fresh addresses is told in its state: what the answer
/// says, or what is wrong with it, or that there is none. A fresh state tells
/// no error.
pub proof fn law_states_tell_what_went_wrong(
    cfg: Config,
    results: Seq<NameResult>,
    production: AddrNames,
    maintenance: AddrNames,
    i: int,
)
    requires
        0 <= i < cfg.endpoints@.len(),
        plan_for(cfg, results, production, maintenance).error is None,
    ensures
        ({
            let name = names_of(cfg.endpoints@)[i];
            let e = plan_for(cfg, results, production, maintenance).names[i].error;
            &&& (forall|k: int| !counts_for(results, name, k)) ==> e == Some("no result for name"@)
            &&& forall|k: int| #[trigger]
                counts_for(results, name, k) ==> {
                    let r = results[k];
                    match r.outcome {
                        Outcome::Empty => e is Some <==> r.error is Some && (e is Some ==> e->0
                            == r.error->0@),
                        Outcome::Transient => e == Some(
                            if r.error is Some {
                                r.error->0@
                            } else {
                                "transient failure"@
                            },
                        ),
                        Outcome::Resolved => if r.addrs@.len() == 0 {
                            e == Some("ok outcome without addresses"@)
                        } else if usable(r) {
                            e is None
                        } else {
                            e == Some(
                                "answer contains non-global address(es): ["@ + joined(
                                    addr_texts(
                                        r.addrs@.filter(|x: Ipv4Addr| !global_unicast(x)),
                                    ),
                                    ", "@,
                                ) + "]"@,
                            )
                        },
                    }
                }
        }),
{
    let name = names_of(cfg.endpoints@)[i];
    lemma_counts(results, name);
    lemma_result_at(results, name);
    match result_at(results, name) {
        Some(k) => {
            assert(counts_for(results, name, k));
            lemma_usable(results[k]);
        },
        None => {},
    }
}

/// The addresses of a fresh state stand in the order in which the answer first
/// gives them; those of any other state stand in ascending order.
pub proof fn law_states_list_addresses_in_order(
    cfg: Config,
    results: Seq<NameResult>,
    production: AddrNames,
    maintenance: AddrNames,
    i: int,
    a: int,
    b: int,
)
    requires
        production.dom().finite(),
        0 <= i < cfg.endpoints@.len(),
        0 <= a < b < plan_for(cfg, results, production, maintenance).names[i].addrs.len(),
    ensures
        ({
            let plan = plan_for(cfg, results, production, maintenance);
            let s = plan.names[i];
            let name = names_of(cfg.endpoints@)[i];
            &&& s.source != Source::Fresh ==> s.addrs[a].bits < s.addrs[b].bits
            &&& s.source == Source::Fresh ==> exists|k: int, p: int|
                #![trigger results[k].addrs@[p]]
                {
                    &&& counts_for(results, name, k)
                    &&& 0 <= p < results[k].addrs@.len()
                    &&& results[k].addrs@[p] == s.addrs[a]
                    &&& !results[k].addrs@.take(p).contains(s.addrs[b])
                }
        }),
{
    let plan = plan_for(cfg, results, production, maintenance);
    let s = plan.names[i];
    let name = names_of(cfg.endpoints@)[i];
    lemma_counts(results, name);
    lemma_result_at(results, name);
    if s.source == Source::Fresh {
        let k = result_at(results, name)->0;
        assert(counts_for(results, name, k));
        lemma_distinct_order(results[k].addrs@);
        let p = lemma_distinct_first(results[k].addrs@, a, b);
        assert(results[k].addrs@[p] == s.addrs[a]);
    } else {
        lemma_addrs_of_unique(production, name);
        assert(s.addrs == addrs_of(production, name) || s.addrs.len() == 0);
    }
}

/// The addresses that carry a name ascend.
proof fn lemma_addrs_of_unique(m: AddrNames, name: Seq<char>)
    requires
        m.dom().finite(),
    ensures
        addrs_of(m, name).no_duplicates(),
        forall|a: int, b: int|
            0 <= a < b < addrs_of(m, name).len() ==> (#[trigger] addrs_of(m, name)[a]).bits < (
            #[trigger] addrs_of(m, name)[b]).bits,
{
    let p = |ip: Ipv4Addr| m[ip].contains(name);
    let set = m.dom().filter(p);
    m.dom().lemma_len_filter(p);
    lemma_addr_order();
    lemma_in_order_finite(set, addr_lt());
    let s = addrs_of(m, name);
    assert forall|a: int, b: int| 0 <= a < b < s.len() implies (#[trigger] s[a]).bits < (
    #[trigger] s[b]).bits by {
        assert(addr_lt()(s[a], s[b]));
    }
    assert forall|a: int, b: int| 0 <= a < s.len() && 0 <= b < s.len() && a != b implies s[a]
        != s[b] by {
        if a < b {
            assert(s[a].bits < s[b].bits);
        } else {
            assert(s[b].bits < s[a].bits);
        }
    }
}

/// Leaving out repetitions leaves none.
proof fn lemma_distinct_order(s: Seq<Ipv4Addr>)
    ensures
        distinct(s).no_duplicates(),
    decreases s.len(),
{
    if s.len() > 0 {
        lemma_distinct_order(s.drop_last());
    }
}

/// Of two elements of the list without repetitions, the earlier one occurs
/// before the other does.
pub proof fn lemma_distinct_first(s: Seq<Ipv4Addr>, a: int, b: int) -> (p: int)
    requires
        0 <= a < b < distinct(s).len(),
    ensures
        0 <= p < s.len(),
        s[p] == distinct(s)[a],
        !s.take(p).contains(distinct(s)[b]),
    decreases s.len(),
{
    let rest = s.drop_last();
    let d = distinct(rest);
    if b < d.len() {
        let p = lemma_distinct_first(rest, a, b);
        assert(s.take(p) =~= rest.take(p));
        p
    } else {
        lemma_distinct_contains(rest, d[a]);
        assert(d.contains(d[a]));
        let p = choose|p: int| 0 <= p < rest.len() && rest[p] == d[a];
        lemma_distinct_contains(rest, s.last());
        if s.take(p).contains(s.last()) {
            let q = choose|q: int| 0 <= q < p && s.take(p)[q] == s.last();
            assert(rest[q] == s.last());
        }
        p
    }
}

} // verus!
