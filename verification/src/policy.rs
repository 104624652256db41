//! What holds of every plan, whatever the answers and the kernel say.

use vstd::prelude::*;
use crate::addr::Ipv4Addr;
use crate::addr_map::AddrNames;
use crate::answers::{result_for, NameResult, Outcome};
use crate::config::{
    config_problem, endpoint_problem, firewall_problem, first_some, names_of, valid_hostname,
    valid_label, Config, Endpoint, MAX_COMMENT_LEN,
};
use crate::order::{addr_lt, ascending, lemma_addr_order, lemma_in_order_finite};
use crate::plan::{
    addrs_of, distinct, forbidden, from_answer, kernel_states, lemma_offered_push, missing_from,
    offered, plan_for, planned_states, Source, StateView,
};
use crate::round_trip::{plain_char, plain_names, plain_word};
use crate::text::{byte_len, cut, equals, is_alnum, lemma_cut_nonempty, pieces};
use crate::validate::global_unicast;

verus! {

// ---------------------------------------------------------------------------
// Lists of addresses
// ---------------------------------------------------------------------------

/// `addrs_of` lists exactly the addresses that carry the name.
pub proof fn lemma_addrs_of(m: AddrNames, name: Seq<char>)
    requires
        m.dom().finite(),
    ensures
        forall|ip: Ipv4Addr|
            #![trigger addrs_of(m, name).contains(ip)]
            addrs_of(m, name).contains(ip) <==> m.contains_key(ip) && m[ip].contains(name),
{
    let p = |ip: Ipv4Addr| m[ip].contains(name);
    let set = m.dom().filter(p);
    m.dom().lemma_len_filter(p);
    lemma_addr_order();
    lemma_in_order_finite(set, addr_lt());
    assert forall|ip: Ipv4Addr|
        #![trigger addrs_of(m, name).contains(ip)]
        addrs_of(m, name).contains(ip) <==> m.contains_key(ip) && m[ip].contains(name) by {
        assert(addrs_of(m, name).to_set().contains(ip) <==> set.contains(ip));
    }
}

/// Leaving out repetitions keeps the elements.
pub proof fn lemma_distinct_contains(s: Seq<Ipv4Addr>, x: Ipv4Addr)
    ensures
        distinct(s).contains(x) <==> s.contains(x),
    decreases s.len(),
{
    if s.len() > 0 {
        let d = s.drop_last();
        lemma_distinct_contains(d, x);
        lemma_distinct_contains(d, s.last());
        assert(d.push(s.last()) =~= s);
        let r = distinct(d);
        if s.contains(x) {
            let i = choose|i: int| 0 <= i < s.len() && s[i] == x;
            if i < d.len() {
                assert(d[i] == x);
            }
        }
        if d.contains(x) {
            let i = choose|i: int| 0 <= i < d.len() && d[i] == x;
            assert(s[i] == x);
        }
        assert(s[s.len() - 1] == s.last());
        if !r.contains(s.last()) {
            let q = r.push(s.last());
            assert(q[r.len() as int] == s.last());
            if r.contains(x) {
                let i = choose|i: int| 0 <= i < r.len() && r[i] == x;
                assert(q[i] == x);
            }
            if q.contains(x) {
                let i = choose|i: int| 0 <= i < q.len() && q[i] == x;
                if i < r.len() {
                    assert(r[i] == x);
                }
            }
        }
    }
}

/// No forbidden address means that all are global.
pub proof fn lemma_forbidden(addrs: Seq<Ipv4Addr>, ip: Ipv4Addr)
    requires
        forbidden(addrs).len() == 0,
        addrs.contains(ip),
    ensures
        global_unicast(ip),
{
    let p = |x: Ipv4Addr| !global_unicast(x);
    if !global_unicast(ip) {
        let i = choose|i: int| 0 <= i < addrs.len() && addrs[i] == ip;
        assert(p(addrs[i]));
        addrs.lemma_filter_contains(p, i);
        assert(forbidden(addrs).contains(ip));
    }
}

/// Finitely many names offer finitely many addresses.
pub proof fn lemma_offered_finite(names: Seq<StateView>)
    ensures
        offered(names).dom().finite(),
    decreases names.len(),
{
    if names.len() == 0 {
        assert(offered(names).dom() =~= Set::<Ipv4Addr>::empty());
    } else {
        let d = names.drop_last();
        let s = names.last();
        lemma_offered_finite(d);
        assert(d.push(s) =~= names);
        lemma_offered_push(d, s);
        vstd::seq_lib::seq_to_set_is_finite(s.addrs);
        assert(offered(names).dom() =~= offered(d).dom().union(s.addrs.to_set()));
    }
}

/// A plan's production chain is finite if the current one is.
pub proof fn lemma_planned_finite(
    cfg: Config,
    results: Seq<NameResult>,
    production: AddrNames,
    maintenance: AddrNames,
)
    requires
        production.dom().finite(),
    ensures
        plan_for(cfg, results, production, maintenance).production.dom().finite(),
{
    lemma_offered_finite(planned_states(cfg.endpoints@, results, production));
}

// ---------------------------------------------------------------------------
// The maintenance chain
// ---------------------------------------------------------------------------

/// The maintenance chain never shrinks, and it covers the production chain:
/// every address of either stays, or becomes, part of it, with all its names.
pub proof fn law_maintenance_only_grows(
    cfg: Config,
    results: Seq<NameResult>,
    production: AddrNames,
    maintenance: AddrNames,
)
    ensures
        ({
            let plan = plan_for(cfg, results, production, maintenance);
            &&& forall|ip: Ipv4Addr| #[trigger]
                maintenance.contains_key(ip) ==> plan.maintenance.contains_key(ip)
                    && maintenance[ip].subset_of(plan.maintenance[ip])
            &&& forall|ip: Ipv4Addr| #[trigger]
                plan.production.contains_key(ip) ==> plan.maintenance.contains_key(ip)
                    && plan.production[ip].subset_of(plan.maintenance[ip])
            &&& forall|ip: Ipv4Addr| #[trigger]
                plan.maintenance.contains_key(ip) ==> maintenance.contains_key(ip)
                    || plan.production.contains_key(ip)
        }),
{
}

// ---------------------------------------------------------------------------
// The production chain
// ---------------------------------------------------------------------------

/// The answers authorise `ip` for endpoint `i`: its name has a positive result
/// that lists the address, and nothing in that result is non-global.
pub open spec fn authorised(
    endpoints: Seq<Endpoint>,
    results: Seq<NameResult>,
    i: int,
    ip: Ipv4Addr,
) -> bool {
    match result_for(results, names_of(endpoints)[i]) {
        Some(r) => r.outcome == Outcome::Resolved && r.addrs@.contains(ip) && forall|x: Ipv4Addr|
            #[trigger] r.addrs@.contains(x) ==> global_unicast(x),
        None => false,
    }
}

/// An address of a planned state is authorised, or it was there before.
proof fn lemma_state_origin(
    endpoints: Seq<Endpoint>,
    results: Seq<NameResult>,
    production: AddrNames,
    i: int,
    ip: Ipv4Addr,
)
    requires
        production.dom().finite(),
        0 <= i < endpoints.len(),
        planned_states(endpoints, results, production)[i].addrs.contains(ip),
    ensures
        authorised(endpoints, results, i, ip) || (production.contains_key(ip)
            && production[ip].contains(names_of(endpoints)[i])),
{
    let name = names_of(endpoints)[i];
    let s = planned_states(endpoints, results, production)[i];
    lemma_addrs_of(production, name);
    if s.source == Source::Fresh {
        let r = result_for(results, name)->0;
        lemma_distinct_contains(r.addrs@, ip);
        assert forall|x: Ipv4Addr| #[trigger] r.addrs@.contains(x) implies global_unicast(x) by {
            lemma_forbidden(r.addrs@, x);
        }
    } else {
        assert(s.source == Source::Empty || s.addrs == addrs_of(production, name));
    }
}

/// Every address that a plan adds is authorised by the answers for one of the
/// endpoints, and is a global unicast address.
pub proof fn law_added_addresses_are_authorised(
    cfg: Config,
    results: Seq<NameResult>,
    production: AddrNames,
    maintenance: AddrNames,
    ip: Ipv4Addr,
)
    requires
        production.dom().finite(),
        plan_for(cfg, results, production, maintenance).production.contains_key(ip),
        !production.contains_key(ip),
    ensures
        global_unicast(ip),
        exists|i: int|
            0 <= i < cfg.endpoints@.len() && #[trigger] authorised(
                cfg.endpoints@,
                results,
                i,
                ip,
            ),
{
    let names = planned_states(cfg.endpoints@, results, production);
    let i = choose|i: int| 0 <= i < names.len() && (#[trigger] names[i]).addrs.contains(ip);
    lemma_state_origin(cfg.endpoints@, results, production, i, ip);
    assert(authorised(cfg.endpoints@, results, i, ip));
    let r = result_for(results, names_of(cfg.endpoints@)[i])->0;
    assert(r.addrs@.contains(ip));
}

/// A plan never holds more than `max_addresses` addresses, unless it leaves
/// the production chain as it is; it does so exactly when it records an error,
/// and then every endpoint describes that chain.
pub proof fn law_limit_is_kept(
    cfg: Config,
    results: Seq<NameResult>,
    production: AddrNames,
    maintenance: AddrNames,
)
    requires
        production.dom().finite(),
    ensures
        ({
            let plan = plan_for(cfg, results, production, maintenance);
            &&& plan.error is None ==> plan.production.dom().len() <= cfg.firewall.max_addresses
            &&& plan.error matches Some(e) ==> {
                &&& plan.production == production
                &&& plan.added.len() == 0
                &&& plan.removed.len() == 0
                &&& plan.names == kernel_states(cfg.endpoints@, production, e)
            }
        }),
{
    let p = |ip: Ipv4Addr| !production.contains_key(ip);
    let none = production.dom().filter(p);
    assert(none =~= Set::<Ipv4Addr>::empty());
    lemma_addr_order();
    lemma_in_order_finite(none, addr_lt());
}

/// What a plan adds and removes is exactly how the two chains differ, each
/// list in ascending order.
pub proof fn law_added_and_removed(
    cfg: Config,
    results: Seq<NameResult>,
    production: AddrNames,
    maintenance: AddrNames,
)
    requires
        production.dom().finite(),
    ensures
        ({
            let plan = plan_for(cfg, results, production, maintenance);
            &&& ascending(plan.added, addr_lt())
            &&& ascending(plan.removed, addr_lt())
            &&& forall|ip: Ipv4Addr| #[trigger]
                plan.added.contains(ip) <==> plan.production.contains_key(ip)
                    && !production.contains_key(ip)
            &&& forall|ip: Ipv4Addr| #[trigger]
                plan.removed.contains(ip) <==> production.contains_key(ip)
                    && !plan.production.contains_key(ip)
        }),
{
    let plan = plan_for(cfg, results, production, maintenance);
    lemma_planned_finite(cfg, results, production, maintenance);
    lemma_missing_from(plan.production, production);
    lemma_missing_from(production, plan.production);
}

proof fn lemma_missing_from(a: AddrNames, b: AddrNames)
    requires
        a.dom().finite(),
    ensures
        ascending(missing_from(a, b), addr_lt()),
        forall|ip: Ipv4Addr| #[trigger]
            missing_from(a, b).contains(ip) <==> a.contains_key(ip) && !b.contains_key(ip),
{
    let p = |ip: Ipv4Addr| !b.contains_key(ip);
    let set = a.dom().filter(p);
    a.dom().lemma_len_filter(p);
    lemma_addr_order();
    lemma_in_order_finite(set, addr_lt());
    assert forall|ip: Ipv4Addr| #[trigger]
        missing_from(a, b).contains(ip) <==> a.contains_key(ip) && !b.contains_key(ip) by {
        assert(missing_from(a, b).to_set().contains(ip) <==> set.contains(ip));
    }
}

// ---------------------------------------------------------------------------
// One name
// ---------------------------------------------------------------------------

/// The answers say nothing usable about a name: there is no result for it, or
/// a transient one, or one without addresses or with a non-global address.
pub open spec fn no_usable_answer(results: Seq<NameResult>, name: Seq<char>) -> bool {
    match result_for(results, name) {
        None => true,
        Some(r) => match r.outcome {
            Outcome::Resolved => r.addrs@.len() == 0 || forbidden(r.addrs@).len() > 0,
            Outcome::Empty => false,
            Outcome::Transient => true,
        },
    }
}

/// A name without a usable answer keeps its last-known-good addresses: they
/// are what its state lists, and every one of them stays in the production
/// chain under that name.
pub proof fn law_transient_failure_keeps_addresses(
    cfg: Config,
    results: Seq<NameResult>,
    production: AddrNames,
    maintenance: AddrNames,
    i: int,
)
    requires
        production.dom().finite(),
        0 <= i < cfg.endpoints@.len(),
        no_usable_answer(results, names_of(cfg.endpoints@)[i]),
    ensures
        ({
            let name = names_of(cfg.endpoints@)[i];
            let plan = plan_for(cfg, results, production, maintenance);
            &&& plan.names[i].addrs == addrs_of(production, name)
            &&& plan.names[i].outcome == Outcome::Transient
            &&& !from_answer(plan.names[i].source)
            &&& forall|ip: Ipv4Addr| #[trigger]
                production.contains_key(ip) && production[ip].contains(name)
                    ==> plan.production.contains_key(ip) && plan.production[ip].contains(name)
        }),
{
    let name = names_of(cfg.endpoints@)[i];
    let plan = plan_for(cfg, results, production, maintenance);
    let names = planned_states(cfg.endpoints@, results, production);
    lemma_addrs_of(production, name);
    assert(names[i].addrs == addrs_of(production, name));
    assert(names[i].name == name);
    assert forall|ip: Ipv4Addr| #[trigger]
        production.contains_key(ip) && production[ip].contains(
        name,
    ) implies plan.production.contains_key(ip) && plan.production[ip].contains(name) by {
        assert(names[i].addrs.contains(ip));
    }
}

/// A name with an authenticated negative answer is cleared: unless the limit
/// keeps the previous chain, no production address carries it any more.
pub proof fn law_negative_answer_clears_name(
    cfg: Config,
    results: Seq<NameResult>,
    production: AddrNames,
    maintenance: AddrNames,
    i: int,
)
    requires
        config_problem(cfg) is None,
        0 <= i < cfg.endpoints@.len(),
        result_for(results, names_of(cfg.endpoints@)[i]) matches Some(r) && r.outcome
            == Outcome::Empty,
        plan_for(cfg, results, production, maintenance).error is None,
    ensures
        ({
            let name = names_of(cfg.endpoints@)[i];
            let plan = plan_for(cfg, results, production, maintenance);
            &&& plan.names[i].addrs.len() == 0
            &&& plan.names[i].source == Source::Empty
            &&& forall|ip: Ipv4Addr| #[trigger]
                plan.production.contains_key(ip) ==> !plan.production[ip].contains(name)
        }),
{
    let name = names_of(cfg.endpoints@)[i];
    let plan = plan_for(cfg, results, production, maintenance);
    let names = planned_states(cfg.endpoints@, results, production);
    law_valid_config(cfg);
    assert forall|ip: Ipv4Addr| #[trigger] plan.production.contains_key(ip) implies !plan.production[
    ip].contains(name) by {
        if plan.production[ip].contains(name) {
            let k = choose|k: int|
                0 <= k < names.len() && (#[trigger] names[k]).addrs.contains(ip) && names[k].name
                    == name;
            assert(names_of(cfg.endpoints@)[k] == name);
            assert(k == i);
        }
    }
}

/// A name with a positive answer gets exactly the addresses of that answer.
pub proof fn law_fresh_answer_sets_addresses(
    cfg: Config,
    results: Seq<NameResult>,
    production: AddrNames,
    maintenance: AddrNames,
    i: int,
)
    requires
        0 <= i < cfg.endpoints@.len(),
        result_for(results, names_of(cfg.endpoints@)[i]) matches Some(r) && r.outcome
            == Outcome::Resolved && r.addrs@.len() > 0 && forbidden(r.addrs@).len() == 0,
        plan_for(cfg, results, production, maintenance).error is None,
    ensures
        ({
            let r = result_for(results, names_of(cfg.endpoints@)[i])->0;
            let s = plan_for(cfg, results, production, maintenance).names[i];
            &&& s.source == Source::Fresh
            &&& s.error is None
            &&& forall|ip: Ipv4Addr| #[trigger] s.addrs.contains(ip) <==> r.addrs@.contains(ip)
        }),
{
    let r = result_for(results, names_of(cfg.endpoints@)[i])->0;
    let s = planned_states(cfg.endpoints@, results, production)[i];
    assert forall|ip: Ipv4Addr| #[trigger] s.addrs.contains(ip) <==> r.addrs@.contains(ip) by {
        lemma_distinct_contains(r.addrs@, ip);
    }
}

/// The production chain is the only state: the addresses whose rules carry an
/// endpoint's name are exactly those that its state lists. What the next run
/// reads back as last-known-good is what this run installed.
pub proof fn law_chain_records_names(
    cfg: Config,
    results: Seq<NameResult>,
    production: AddrNames,
    maintenance: AddrNames,
    i: int,
)
    requires
        config_problem(cfg) is None,
        production.dom().finite(),
        0 <= i < cfg.endpoints@.len(),
    ensures
        ({
            let name = names_of(cfg.endpoints@)[i];
            let plan = plan_for(cfg, results, production, maintenance);
            &&& plan.names[i].name == name
            &&& forall|ip: Ipv4Addr| #[trigger]
                plan.names[i].addrs.contains(ip) <==> addrs_of(plan.production, name).contains(ip)
        }),
{
    let name = names_of(cfg.endpoints@)[i];
    let plan = plan_for(cfg, results, production, maintenance);
    let names = planned_states(cfg.endpoints@, results, production);
    lemma_planned_finite(cfg, results, production, maintenance);
    lemma_addrs_of(plan.production, name);
    lemma_addrs_of(production, name);
    law_valid_config(cfg);
    if plan.error is None {
        assert forall|ip: Ipv4Addr| #[trigger]
            plan.names[i].addrs.contains(ip) <==> addrs_of(plan.production, name).contains(ip) by {
            if names[i].addrs.contains(ip) {
                assert(names[i].name == name);
                assert(plan.production[ip].contains(name));
            }
            if addrs_of(plan.production, name).contains(ip) {
                let k = choose|k: int|
                    0 <= k < names.len() && (#[trigger] names[k]).addrs.contains(ip)
                        && names[k].name == name;
                assert(names_of(cfg.endpoints@)[k] == name);
                assert(k == i);
            }
        }
    }
}

/// Whatever a plan publishes for a name it also installs: every address of
/// every state is in the production chain, with the name of that state.
pub proof fn law_published_addresses_are_installed(
    cfg: Config,
    results: Seq<NameResult>,
    production: AddrNames,
    maintenance: AddrNames,
)
    requires
        production.dom().finite(),
    ensures
        ({
            let plan = plan_for(cfg, results, production, maintenance);
            &&& plan.names.len() == cfg.endpoints@.len()
            &&& all_installed(plan.names, plan.production)
        }),
{
    let plan = plan_for(cfg, results, production, maintenance);
    let names = planned_states(cfg.endpoints@, results, production);
    if plan.error is None {
        assert forall|i: int, ip: Ipv4Addr|
            0 <= i < names.len() && #[trigger] names[i].addrs.contains(
                ip,
            ) implies plan.production.contains_key(ip) && plan.production[ip].contains(
            names[i].name,
        ) by {}
    } else {
        lemma_kernel_states_installed(cfg.endpoints@, production, plan.error->0);
    }
}

/// Every address of every state is in `production`, with the name of that
/// state.
pub open spec fn all_installed(names: Seq<StateView>, production: AddrNames) -> bool {
    forall|i: int, ip: Ipv4Addr|
        0 <= i < names.len() && #[trigger] names[i].addrs.contains(ip)
            ==> production.contains_key(ip) && production[ip].contains(names[i].name)
}

/// States that describe the kernel list installed addresses only.
pub proof fn lemma_kernel_states_installed(
    endpoints: Seq<Endpoint>,
    production: AddrNames,
    reason: Seq<char>,
)
    requires
        production.dom().finite(),
    ensures
        all_installed(kernel_states(endpoints, production, reason), production),
{
    let names = kernel_states(endpoints, production, reason);
    assert forall|i: int, ip: Ipv4Addr|
        0 <= i < names.len() && #[trigger] names[i].addrs.contains(
            ip,
        ) implies production.contains_key(ip) && production[ip].contains(names[i].name) by {
        lemma_addrs_of(production, names[i].name);
    }
}

/// Without any results nothing is fresh, nothing is added, and a production
/// chain that holds only names of configured endpoints, at least one per
/// address, stays exactly as it is. A chain within the limit gives no error.
pub proof fn law_failed_resolution_changes_nothing(
    cfg: Config,
    production: AddrNames,
    maintenance: AddrNames,
)
    requires
        production.dom().finite(),
    ensures
        ({
            let plan = plan_for(cfg, Seq::empty(), production, maintenance);
            &&& forall|i: int|
                0 <= i < plan.names.len() ==> !from_answer((#[trigger] plan.names[i]).source)
            &&& forall|ip: Ipv4Addr| #[trigger]
                plan.production.contains_key(ip) ==> production.contains_key(ip)
            &&& (forall|ip: Ipv4Addr| #[trigger]
                production.contains_key(ip) ==> production[ip] != Set::<Seq<char>>::empty()
                    && forall|n: Seq<char>| #[trigger]
                    production[ip].contains(n) ==> names_of(cfg.endpoints@).contains(n))
                ==> plan.production == production
            &&& production.dom().len() <= cfg.firewall.max_addresses ==> plan.error is None
        }),
{
    let none = Seq::<NameResult>::empty();
    let plan = plan_for(cfg, none, production, maintenance);
    let names = planned_states(cfg.endpoints@, none, production);
    let all = names_of(cfg.endpoints@);
    assert forall|i: int| 0 <= i < names.len() implies !from_answer((#[trigger] names[i]).source)
        && names[i].name == all[i] && names[i].addrs == addrs_of(production, all[i]) by {
        assert(result_for(none, all[i]) is None);
    }
    let wanted = offered(names);
    assert forall|ip: Ipv4Addr| #[trigger] wanted.contains_key(ip) implies production.contains_key(
        ip,
    ) by {
        let i = choose|i: int| 0 <= i < names.len() && (#[trigger] names[i]).addrs.contains(ip);
        lemma_addrs_of(production, all[i]);
    }
    assert(wanted.dom().subset_of(production.dom()));
    vstd::set_lib::lemma_len_subset(wanted.dom(), production.dom());
    if forall|ip: Ipv4Addr| #[trigger]
        production.contains_key(ip) ==> production[ip] != Set::<Seq<char>>::empty()
            && forall|n: Seq<char>| #[trigger] production[ip].contains(n) ==> all.contains(n) {
        assert forall|ip: Ipv4Addr| production.contains_key(ip) implies #[trigger] wanted.contains_key(
            ip,
        ) && wanted[ip] == production[ip] by {
            let set = production[ip];
            assert(exists|n: Seq<char>| set.contains(n)) by {
                if forall|n: Seq<char>| !set.contains(n) {
                    assert(set =~= Set::<Seq<char>>::empty());
                }
            }
            let n = choose|n: Seq<char>| set.contains(n);
            let i = choose|i: int| 0 <= i < all.len() && all[i] == n;
            lemma_addrs_of(production, all[i]);
            assert(names[i].addrs.contains(ip));
            assert forall|q: Seq<char>| wanted[ip].contains(q) <==> set.contains(q) by {
                if set.contains(q) {
                    let k = choose|k: int| 0 <= k < all.len() && all[k] == q;
                    lemma_addrs_of(production, all[k]);
                    assert(names[k].addrs.contains(ip) && names[k].name == q);
                }
                if wanted[ip].contains(q) {
                    let k = choose|k: int|
                        0 <= k < names.len() && (#[trigger] names[k]).addrs.contains(ip)
                            && names[k].name == q;
                    lemma_addrs_of(production, all[k]);
                }
            }
            assert(wanted[ip] =~= set);
        }
        assert(wanted.dom() =~= production.dom());
        assert(wanted =~= production);
    }
}

/// Planning is idempotent: once a plan is installed, the same answers ask for
/// nothing more. The chains stay exactly as they are.
pub proof fn law_plan_is_idempotent(
    cfg: Config,
    results: Seq<NameResult>,
    production: AddrNames,
    maintenance: AddrNames,
)
    requires
        config_problem(cfg) is None,
        production.dom().finite(),
    ensures
        ({
            let plan = plan_for(cfg, results, production, maintenance);
            let again = plan_for(cfg, results, plan.production, plan.maintenance);
            &&& again.production == plan.production
            &&& again.maintenance == plan.maintenance
            &&& again.added.len() == 0
            &&& again.removed.len() == 0
            &&& again.error is Some <==> plan.error is Some
        }),
{
    let plan = plan_for(cfg, results, production, maintenance);
    let again = plan_for(cfg, results, plan.production, plan.maintenance);
    let endpoints = cfg.endpoints@;
    let names = planned_states(endpoints, results, production);
    let next = planned_states(endpoints, results, plan.production);
    lemma_planned_finite(cfg, results, production, maintenance);
    if plan.error is None {
        assert forall|i: int| 0 <= i < endpoints.len() implies next[i] == names[i] by {
            let name = names_of(endpoints)[i];
            if names[i].source != Source::Fresh && names[i].source != Source::Empty {
                law_chain_records_names(cfg, results, production, maintenance, i);
                lemma_addrs_of(production, name);
                lemma_addrs_of(plan.production, name);
                assert(names[i].addrs == addrs_of(production, name));
                let a = production.dom().filter(|ip: Ipv4Addr| production[ip].contains(name));
                let b = plan.production.dom().filter(
                    |ip: Ipv4Addr| plan.production[ip].contains(name),
                );
                assert forall|ip: Ipv4Addr| a.contains(ip) <==> b.contains(ip) by {
                    assert(addrs_of(production, name).contains(ip) <==> a.contains(ip));
                    assert(addrs_of(plan.production, name).contains(ip) <==> b.contains(ip));
                    assert(plan.names[i].addrs.contains(ip) <==> addrs_of(
                        plan.production,
                        name,
                    ).contains(ip));
                }
                assert(a =~= b);
                assert(addrs_of(production, name) == addrs_of(plan.production, name));
            }
        }
        assert(next =~= names);
    }
    assert(again.production == plan.production);
    assert forall|ip: Ipv4Addr| plan.maintenance.contains_key(ip) implies again.maintenance[ip]
        == plan.maintenance[ip] by {
        assert(again.maintenance[ip] =~= plan.maintenance[ip]);
    }
    assert(again.maintenance =~= plan.maintenance);
    lemma_missing_from(plan.production, plan.production);
    let none = missing_from(plan.production, plan.production);
    if none.len() > 0 {
        assert(none.contains(none[0]));
    }
}

// ---------------------------------------------------------------------------
// Valid configurations
// ---------------------------------------------------------------------------

/// What a configuration without a problem guarantees: there are resolvers and
/// at least one attempt, the chains have valid and different names, and the
/// endpoint names are pairwise different hostnames.
pub proof fn law_valid_config(cfg: Config)
    requires
        config_problem(cfg) is None,
    ensures
        cfg.resolver.servers@.len() > 0,
        cfg.resolver.attempts > 0,
        cfg.resolver.timeout_secs > 0,
        cfg.endpoints@.len() > 0,
        cfg.firewall.max_addresses > 0,
        firewall_problem(cfg.firewall) is None,
        forall|i: int|
            0 <= i < cfg.endpoints@.len() ==> valid_hostname(#[trigger] names_of(cfg.endpoints@)[i]),
        forall|i: int, j: int|
            0 <= i < cfg.endpoints@.len() && 0 <= j < cfg.endpoints@.len() && #[trigger] names_of(
                cfg.endpoints@,
            )[i] == #[trigger] names_of(cfg.endpoints@)[j] ==> i == j,
{
    let n = cfg.endpoints@.len() as int;
    let f = |i: int| endpoint_problem(cfg.endpoints@, i);
    let names = names_of(cfg.endpoints@);
    assert forall|i: int| 0 <= i < n implies #[trigger] endpoint_problem(cfg.endpoints@, i)
        is None by {
        lemma_none_found(f, 0, i, n);
        assert(f(i) is None);
    }
    assert forall|i: int| 0 <= i < n implies valid_hostname(#[trigger] names[i]) by {
        assert(endpoint_problem(cfg.endpoints@, i) is None);
    }
    assert forall|i: int, j: int|
        0 <= i < n && 0 <= j < n && #[trigger] names[i] == #[trigger] names[j] implies i == j by {
        assert(endpoint_problem(cfg.endpoints@, i) is None);
        assert(endpoint_problem(cfg.endpoints@, j) is None);
        if i < j {
            assert(names.take(j)[i] == names[j]);
        }
        if j < i {
            assert(names.take(i)[j] == names[i]);
        }
    }
}

pub proof fn lemma_none_found(f: spec_fn(int) -> Option<Seq<char>>, from: int, i: int, to: int)
    requires
        from <= i < to,
        first_some(f, from, to) is None,
    ensures
        f(i) is None,
    decreases to - from,
{
    if from < i {
        lemma_none_found(f, from + 1, i, to);
    }
}

/// Hostnames are plain words that fit into a comment.
pub proof fn lemma_hostname_plain(name: Seq<char>)
    requires
        valid_hostname(name),
    ensures
        plain_word(name),
        byte_len(name) <= MAX_COMMENT_LEN,
        forall|i: int| 0 <= i < name.len() ==> is_alnum(#[trigger] name[i]) || name[i] == '-' || name[i] == '.',
{
    assert forall|i: int| 0 <= i < name.len() implies is_alnum(#[trigger] name[i]) || name[i]
        == '-' || name[i] == '.' by {
        lemma_in_piece(name, equals('.'), i);
        if name[i] != '.' {
            let (k, j) = choose|k: int, j: int|
                0 <= k < cut(name, equals('.')).len() && 0 <= j < cut(name, equals('.'))[k].len()
                    && #[trigger] cut(name, equals('.'))[k][j] == name[i];
            assert(valid_label(pieces(name, '.')[k]));
            assert(pieces(name, '.')[k][j] == name[i]);
        }
    }
    assert forall|i: int| 0 <= i < name.len() implies plain_char(#[trigger] name[i]) by {
        assert(is_alnum(name[i]) || name[i] == '-' || name[i] == '.');
    }
}

/// Every character that is no separator is in some piece.
proof fn lemma_in_piece(s: Seq<char>, sep: spec_fn(char) -> bool, i: int)
    requires
        0 <= i < s.len(),
    ensures
        sep(s[i]) || exists|k: int, j: int|
            0 <= k < cut(s, sep).len() && 0 <= j < cut(s, sep)[k].len() && #[trigger] cut(
                s,
                sep,
            )[k][j] == s[i],
    decreases s.len(),
{
    let d = s.drop_last();
    let head = cut(d, sep);
    lemma_cut_nonempty(d, sep);
    let c = s.last();
    if !sep(s[i]) {
        if i < d.len() {
            lemma_in_piece(d, sep, i);
            assert(d[i] == s[i]);
            let (k, j) = choose|k: int, j: int|
                0 <= k < head.len() && 0 <= j < head[k].len() && #[trigger] head[k][j] == d[i];
            assert(cut(s, sep)[k][j] == s[i]);
        } else {
            let k = head.len() - 1;
            let j = head.last().len() as int;
            assert(cut(s, sep)[k][j] == s[i]);
        }
    }
}

/// With a valid configuration, every name in a newly planned production chain
/// is a plain word that fits into a comment, and it belongs to an endpoint.
pub proof fn law_planned_names_are_plain(
    cfg: Config,
    results: Seq<NameResult>,
    production: AddrNames,
    maintenance: AddrNames,
    ip: Ipv4Addr,
)
    requires
        config_problem(cfg) is None,
        plan_for(cfg, results, production, maintenance).error is None,
        plan_for(cfg, results, production, maintenance).production.contains_key(ip),
    ensures
        plain_names(plan_for(cfg, results, production, maintenance).production[ip]),
        forall|n: Seq<char>| #[trigger]
            plan_for(cfg, results, production, maintenance).production[ip].contains(n)
                ==> names_of(cfg.endpoints@).contains(n) && byte_len(n) <= MAX_COMMENT_LEN,
{
    let plan = plan_for(cfg, results, production, maintenance);
    let names = planned_states(cfg.endpoints@, results, production);
    let all = names_of(cfg.endpoints@);
    let set = plan.production[ip];
    law_valid_config(cfg);
    assert forall|n: Seq<char>| #[trigger] set.contains(n) implies all.contains(n) && plain_word(n)
        && byte_len(n) <= MAX_COMMENT_LEN by {
        let k = choose|k: int|
            0 <= k < names.len() && (#[trigger] names[k]).addrs.contains(ip) && names[k].name == n;
        assert(all[k] == n);
        assert(valid_hostname(all[k]));
        lemma_hostname_plain(n);
    }
    assert(set.subset_of(all.to_set()));
    vstd::seq_lib::seq_to_set_is_finite(all);
    vstd::set_lib::lemma_set_subset_finite(all.to_set(), set);
}

} // verus!
