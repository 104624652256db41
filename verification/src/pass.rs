//! What holds of every reconciliation pass, whatever the commands report.

use vstd::prelude::*;

use crate::addr::Ipv4Addr;
use crate::addr_map::AddrNames;
use crate::answers::NameResult;
use crate::apply::{
    answers_problem, failed_addrs, firewall_calls, firewall_outcome, holds, is_repeated, mismatches,
    needs_update, outside, plan_from, reread, retained, status_of, swept, update_calls,
    update_outcome, verify_outcome, write_calls, DatedAnswers, InstalledView, LoadedAnswers,
    SweptView,
};
use crate::config::{firewall_problem, Config, FirewallConfig};
use crate::conntrack::{doomed, kill_failure, kill_failures};
use crate::exec::{CallView, Reply};
use crate::fresh::{carried_times, has_fresh_state, has_state, Times};
use crate::iptables::{
    chain_in_reply, lemma_distinct_count, list_call, restore_in_reply, rules_map, ChainView,
};
use crate::order::{addr_lt, ascending, lemma_addr_order, lemma_in_order_finite};
use crate::plan::{from_answer, kernel_states, StateView};
use crate::policy::{
    all_installed, law_maintenance_only_grows, law_published_addresses_are_installed,
    lemma_kernel_states_installed, lemma_planned_finite,
};
use crate::round_trip::{
    law_kernel_round_trip, lemma_rules_in, maintenance_listing, production_listing, shows_comments,
    storable,
};
use crate::secs::Secs;
use crate::status::PrevStatus;
use crate::text::opt_text;

verus! {

// ---------------------------------------------------------------------------
// The firewall
// ---------------------------------------------------------------------------

/// A chain as read, if the reply is a listing.
pub open spec fn listed(chain: Seq<char>, reply: Reply) -> Option<ChainView> {
    match chain_in_reply(chain, reply) {
        Ok(c) => Some(c),
        Err(_) => None,
    }
}

/// A pass that reports success has verified it: the last listing of each chain
/// holds exactly the reported policy, rule for rule.
pub proof fn law_success_is_verified(
    cfg: Config,
    results: Seq<NameResult>,
    replies: Seq<Reply>,
    i: InstalledView,
)
    requires
        replies.len() == firewall_calls(cfg, results, replies).len(),
        firewall_outcome(cfg, results, replies) == Ok::<InstalledView, Seq<char>>(i),
        i.apply_ok,
    ensures
        replies.len() >= 2,
        listed(cfg.firewall.production_chain@, replies[replies.len() - 2]) matches Some(c) && holds(
            c,
            i.production,
        ),
        listed(cfg.firewall.maintenance_chain@, replies[replies.len() - 1]) matches Some(c)
            && holds(c, i.maintenance),
{
    let fw = cfg.firewall;
    let p = chain_in_reply(fw.production_chain@, replies[0])->Ok_0;
    let m = chain_in_reply(fw.maintenance_chain@, replies[1])->Ok_0;
    let plan = plan_from(cfg, results, p, m);
    let rest = replies.skip(2);
    if !needs_update(p, m, plan) {
        lemma_distinct_count(p.rules);
        lemma_distinct_count(m.rules);
    } else {
        let checks = rest.skip(1);
        assert(update_outcome(fw, plan, rest) is Ok);
        assert(restore_in_reply(rest[0]) is Ok);
        let vp = chain_in_reply(fw.production_chain@, checks[0]);
        let vm = chain_in_reply(fw.maintenance_chain@, checks[1]);
        assert(vp is Ok && vm is Ok);
        let problems = mismatches(fw, vp->Ok_0, vm->Ok_0, plan.production, plan.maintenance);
        assert(problems.len() == 0);
        assert(update_calls(fw, plan, rest).len() == 3);
        assert(replies.len() == 5);
        assert(checks[0] == replies[3] && checks[1] == replies[4]);
    }
}

/// Verification accepts a faithful kernel: if both chains are listed as the
/// batch wrote them, the update is a success.
pub proof fn law_faithful_kernel_is_accepted(
    fw: FirewallConfig,
    production: AddrNames,
    maintenance: AddrNames,
    shown_production: Seq<Seq<char>>,
    shown_maintenance: Seq<Seq<char>>,
    replies: Seq<Reply>,
)
    requires
        firewall_problem(fw) is None,
        storable(production),
        storable(maintenance),
        shows_comments(shown_production, production),
        shows_comments(shown_maintenance, maintenance),
        replies[0] matches Ok(out) && out.status == 0 && out.stdout == production_listing(
            fw,
            production,
            shown_production,
        ),
        replies[1] matches Ok(out) && out.status == 0 && out.stdout == maintenance_listing(
            fw,
            maintenance,
            shown_maintenance,
        ),
    ensures
        verify_outcome(fw, production, maintenance, replies) is Ok,
{
    law_kernel_round_trip(
        fw,
        production,
        maintenance,
        shown_production,
        shown_maintenance,
    );
    lemma_rules_in(production);
    lemma_rules_in(maintenance);
}

/// A pass that fails to update the chains says so, and describes what the
/// kernel holds: the last two commands list the chains once more, and the
/// reported policy is that listing (or the first one where it cannot be had).
/// Nothing counts as added, removed or fresh.
pub proof fn law_failure_describes_the_kernel(
    cfg: Config,
    results: Seq<NameResult>,
    replies: Seq<Reply>,
    i: InstalledView,
)
    requires
        replies.len() == firewall_calls(cfg, results, replies).len(),
        firewall_outcome(cfg, results, replies) == Ok::<InstalledView, Seq<char>>(i),
        !i.apply_ok,
    ensures
        ({
            let n = replies.len();
            let fw = cfg.firewall;
            let p = chain_in_reply(fw.production_chain@, replies[0])->Ok_0;
            let m = chain_in_reply(fw.maintenance_chain@, replies[1])->Ok_0;
            let calls = firewall_calls(cfg, results, replies);
            &&& n >= 5
            &&& calls[n - 2] == list_call(fw.production_chain@)
            &&& calls[n - 1] == list_call(fw.maintenance_chain@)
            &&& i.production == rules_map(reread(fw.production_chain@, replies[n - 2], p))
            &&& i.maintenance == rules_map(reread(fw.maintenance_chain@, replies[n - 1], m))
            &&& i.names == kernel_states(cfg.endpoints@, i.production, retained())
            &&& i.added.len() == 0
            &&& i.removed.len() == 0
            &&& i.errors.len() > 0
            &&& forall|k: int|
                0 <= k < i.names.len() ==> !from_answer((#[trigger] i.names[k]).source)
        }),
{
    let fw = cfg.firewall;
    let p = chain_in_reply(fw.production_chain@, replies[0])->Ok_0;
    let m = chain_in_reply(fw.maintenance_chain@, replies[1])->Ok_0;
    let plan = plan_from(cfg, results, p, m);
    let rest = replies.skip(2);
    assert(needs_update(p, m, plan));
    let done = update_calls(fw, plan, rest);
    let k = done.len() as int;
    assert(k >= 1);
    assert(write_calls(cfg, results, p, m, rest) == done + seq![
        list_call(fw.production_chain@),
        list_call(fw.maintenance_chain@),
    ]);
    assert(replies.len() == 2 + k + 2);
    assert(rest[k] == replies[2 + k]);
    assert(rest[k + 1] == replies[3 + k]);
}

/// Whatever is published is installed: every address that a pass lists for an
/// endpoint is in the production chain it reports, under the endpoint's name.
pub proof fn law_reported_addresses_are_installed(
    cfg: Config,
    results: Seq<NameResult>,
    replies: Seq<Reply>,
    i: InstalledView,
)
    requires
        firewall_outcome(cfg, results, replies) == Ok::<InstalledView, Seq<char>>(i),
    ensures
        i.names.len() == cfg.endpoints@.len(),
        all_installed(i.names, i.production),
        i.production.dom().finite(),
{
    let fw = cfg.firewall;
    let p = chain_in_reply(fw.production_chain@, replies[0])->Ok_0;
    let m = chain_in_reply(fw.maintenance_chain@, replies[1])->Ok_0;
    let plan = plan_from(cfg, results, p, m);
    lemma_distinct_count(p.rules);
    law_published_addresses_are_installed(cfg, results, rules_map(p.rules), rules_map(m.rules));
    lemma_planned_finite(cfg, results, rules_map(p.rules), rules_map(m.rules));
    if !i.apply_ok {
        let rest = replies.skip(2);
        let k = update_calls(fw, plan, rest).len() as int;
        let now = reread(fw.production_chain@, rest[k], p);
        lemma_distinct_count(now);
        lemma_kernel_states_installed(cfg.endpoints@, rules_map(now), retained());
    }
}

/// A successful pass keeps everything that the maintenance chain held.
pub proof fn law_pass_keeps_maintenance(
    cfg: Config,
    results: Seq<NameResult>,
    replies: Seq<Reply>,
    i: InstalledView,
    ip: Ipv4Addr,
)
    requires
        firewall_outcome(cfg, results, replies) == Ok::<InstalledView, Seq<char>>(i),
        i.apply_ok,
        listed(cfg.firewall.maintenance_chain@, replies[1]) matches Some(c) && rules_map(
            c.rules,
        ).contains_key(ip),
    ensures
        i.maintenance.contains_key(ip),
{
    let fw = cfg.firewall;
    let p = chain_in_reply(fw.production_chain@, replies[0])->Ok_0;
    let m = chain_in_reply(fw.maintenance_chain@, replies[1])->Ok_0;
    law_maintenance_only_grows(cfg, results, rules_map(p.rules), rules_map(m.rules));
}

/// Clean chains that already hold the plan are left alone: the pass only lists
/// them.
pub proof fn law_unchanged_chains_are_left_alone(
    cfg: Config,
    results: Seq<NameResult>,
    replies: Seq<Reply>,
    p: ChainView,
    m: ChainView,
)
    requires
        listed(cfg.firewall.production_chain@, replies[0]) == Some(p),
        listed(cfg.firewall.maintenance_chain@, replies[1]) == Some(m),
        holds(p, plan_from(cfg, results, p, m).production),
        holds(m, plan_from(cfg, results, p, m).maintenance),
    ensures
        firewall_calls(cfg, results, replies) == seq![
            list_call(cfg.firewall.production_chain@),
            list_call(cfg.firewall.maintenance_chain@),
        ],
        firewall_outcome(cfg, results, replies) matches Ok(i) && i.apply_ok,
{
    let calls = seq![
        list_call(cfg.firewall.production_chain@),
        list_call(cfg.firewall.maintenance_chain@),
    ];
    assert(!needs_update(p, m, plan_from(cfg, results, p, m)));
    assert(calls + Seq::<CallView>::empty() =~= calls);
}

// ---------------------------------------------------------------------------
// Admission to production
// ---------------------------------------------------------------------------

/// A status that reports the required endpoints as satisfied vouches for each
/// of them: the firewall holds the planned policy, the hosts file was written,
/// and the endpoint has an address that the production chain allows.
pub proof fn law_satisfied_means_reachable(
    cfg: Config,
    results: Seq<NameResult>,
    replies: Seq<Reply>,
    i: InstalledView,
    boot_id: Seq<char>,
    generated: Secs,
    prev: PrevStatus,
    loaded: LoadedAnswers,
    hosts_path: Seq<char>,
    written: Result<(), String>,
    mode: Seq<char>,
    sweep: SweptView,
    k: int,
)
    requires
        firewall_outcome(cfg, results, replies) == Ok::<InstalledView, Seq<char>>(i),
        status_of(
            boot_id,
            generated,
            prev,
            loaded,
            i,
            hosts_path,
            written,
            mode,
            sweep,
        ).required_satisfied,
        0 <= k < cfg.endpoints@.len(),
        i.names[k].required,
    ensures
        ({
            let st = status_of(
                boot_id,
                generated,
                prev,
                loaded,
                i,
                hosts_path,
                written,
                mode,
                sweep,
            );
            &&& st.apply_ok
            &&& st.hosts_ok
            &&& st.endpoints[k].addrs.len() > 0
            &&& forall|ip: Ipv4Addr| #[trigger]
                st.endpoints[k].addrs.contains(ip) ==> st.production.contains(ip)
        }),
{
    let st = status_of(
        boot_id,
        generated,
        prev,
        loaded,
        i,
        hosts_path,
        written,
        mode,
        sweep,
    );
    law_reported_addresses_are_installed(cfg, results, replies, i);
    lemma_addr_order();
    lemma_in_order_finite(i.production.dom(), addr_lt());
    assert forall|ip: Ipv4Addr| #[trigger]
        st.endpoints[k].addrs.contains(ip) implies st.production.contains(ip) by {
        assert(i.names[k].addrs.contains(ip));
        assert(st.production.to_set().contains(ip));
    }
}

// ---------------------------------------------------------------------------
// Answers
// ---------------------------------------------------------------------------

/// Answers are applied at most once: once the marker holds their generation
/// time, the same answers are rejected, and the marker stays, so they are
/// rejected by every following run as well.
pub proof fn law_applied_answers_stay_rejected(
    d: DatedAnswers,
    path: Seq<char>,
    prev: PrevStatus,
    loaded: LoadedAnswers,
    boot_id: Seq<char>,
    generated: Secs,
    i: InstalledView,
    hosts_path: Seq<char>,
    written: Result<(), String>,
    mode: Seq<char>,
    sweep: SweptView,
)
    requires
        is_repeated(d.answers.generated_uptime_secs, prev.applied_answers_uptime_secs),
        opt_text(loaded.error) == answers_problem(Ok(d), path, prev.applied_answers_uptime_secs),
        loaded.error is Some ==> loaded.uptime is None,
    ensures
        ({
            let st = status_of(
                boot_id,
                generated,
                prev,
                loaded,
                i,
                hosts_path,
                written,
                mode,
                sweep,
            );
            &&& loaded.error is Some
            &&& st.answers is None
            &&& st.applied == prev.applied_answers_uptime_secs
            &&& st.errors.len() > 0
        }),
{
}

/// Applying answers sets the marker to their generation time.
pub proof fn law_applied_answers_are_marked(
    loaded: LoadedAnswers,
    prev: PrevStatus,
    boot_id: Seq<char>,
    generated: Secs,
    i: InstalledView,
    hosts_path: Seq<char>,
    written: Result<(), String>,
    mode: Seq<char>,
    sweep: SweptView,
)
    requires
        loaded.error is None,
        loaded.uptime == Some(loaded.answers.generated_uptime_secs),
    ensures
        status_of(
            boot_id,
            generated,
            prev,
            loaded,
            i,
            hosts_path,
            written,
            mode,
            sweep,
        ).applied == Some(loaded.answers.generated_uptime_secs),
{
}

/// A name's last fresh time is the time of this run if its state comes from an
/// answer of this run, and stays what it was otherwise.
pub proof fn law_fresh_times_are_carried(
    prev: Times,
    names: Seq<StateView>,
    now: Secs,
    name: Seq<char>,
)
    ensures
        ({
            let next = carried_times(prev, names, now);
            &&& has_fresh_state(names, name) ==> next.contains_key(name) && next[name] == now
            &&& !has_fresh_state(names, name) && has_state(names, name) ==> (next.contains_key(name)
                <==> prev.contains_key(name)) && (prev.contains_key(name) ==> next[name]
                == prev[name])
            &&& !has_state(names, name) ==> !next.contains_key(name)
        }),
{
    if has_fresh_state(names, name) {
        let k = choose|k: int|
            0 <= k < names.len() && (#[trigger] names[k]).name == name && from_answer(
                names[k].source,
            );
        assert(names[k].name == name);
    }
}

// ---------------------------------------------------------------------------
// The sweep
// ---------------------------------------------------------------------------

/// The sweep covers exactly the flows that must not exist: in production the
/// addresses once resolved but no longer allowed, in any other mode every
/// address ever resolved; each once, in ascending order.
pub proof fn law_sweep_covers_forbidden_flows(
    mode: Seq<char>,
    production: AddrNames,
    maintenance: AddrNames,
)
    requires
        maintenance.dom().finite(),
    ensures
        ascending(doomed(mode, production, maintenance), addr_lt()),
        forall|ip: Ipv4Addr| #[trigger]
            doomed(mode, production, maintenance).contains(ip) <==> maintenance.contains_key(ip) && (
            mode == "production"@ ==> !production.contains_key(ip)),
{
    let p = |ip: Ipv4Addr| mode != "production"@ || !production.contains_key(ip);
    let set = maintenance.dom().filter(p);
    maintenance.dom().lemma_len_filter(p);
    lemma_addr_order();
    lemma_in_order_finite(set, addr_lt());
    assert forall|ip: Ipv4Addr| #[trigger]
        doomed(mode, production, maintenance).contains(ip) <==> maintenance.contains_key(ip) && (
        mode == "production"@ ==> !production.contains_key(ip)) by {
        assert(doomed(mode, production, maintenance).to_set().contains(ip) <==> set.contains(ip));
    }
}

/// Every address of a sweep is reported exactly once: as killed if its command
/// succeeded or found nothing, as failed otherwise.
pub proof fn law_sweep_reports_every_address(ips: Seq<Ipv4Addr>, replies: Seq<Reply>, k: int)
    requires
        ascending(ips, addr_lt()),
        0 <= k < ips.len(),
    ensures
        kill_failure(replies[k]) is None ==> swept(ips, replies).killed.contains(ips[k]) && !swept(
            ips,
            replies,
        ).kill_failed.contains(ips[k]),
        kill_failure(replies[k]) is Some ==> swept(ips, replies).kill_failed.contains(ips[k])
            && !swept(ips, replies).killed.contains(ips[k]),
{
    let failures = kill_failures(ips, replies);
    let failed = failed_addrs(failures);
    let p = outside(failed);
    lemma_failed(ips, replies, ips[k]);
    if kill_failure(replies[k]) is None {
        if failed.contains(ips[k]) {
            let j = choose|j: int|
                0 <= j < ips.len() && ips[j] == ips[k] && #[trigger] kill_failure(replies[j])
                    is Some;
            if j < k {
                assert(addr_lt()(ips[j], ips[k]));
            } else if k < j {
                assert(addr_lt()(ips[k], ips[j]));
            }
        }
        assert(p(ips[k]));
        ips.lemma_filter_contains(p, k);
    } else {
        assert(failed.contains(ips[k]));
        if ips.filter(p).contains(ips[k]) {
            let killed = ips.filter(p);
            let j = choose|j: int| 0 <= j < killed.len() && killed[j] == ips[k];
            ips.lemma_filter_pred(p, j);
        }
    }
}

/// The failed addresses are those with a failed command.
proof fn lemma_failed(ips: Seq<Ipv4Addr>, replies: Seq<Reply>, ip: Ipv4Addr)
    ensures
        failed_addrs(kill_failures(ips, replies)).contains(ip) <==> exists|j: int|
            0 <= j < ips.len() && ips[j] == ip && #[trigger] kill_failure(replies[j]) is Some,
    decreases ips.len(),
{
    if ips.len() > 0 {
        let d = ips.drop_last();
        let n = ips.len() - 1;
        lemma_failed(d, replies, ip);
        let head = failed_addrs(kill_failures(d, replies));
        let all = failed_addrs(kill_failures(ips, replies));
        if kill_failure(replies[n]) is Some {
            assert(all =~= head.push(ips.last()));
            assert(all[head.len() as int] == ips[n]);
        } else {
            assert(all =~= head);
        }
        if head.contains(ip) {
            let x = choose|x: int| 0 <= x < head.len() && head[x] == ip;
            assert(all[x] == ip);
        }
        if all.contains(ip) {
            let x = choose|x: int| 0 <= x < all.len() && all[x] == ip;
            if x < head.len() {
                assert(head[x] == ip);
                let j = choose|j: int|
                    0 <= j < d.len() && d[j] == ip && #[trigger] kill_failure(replies[j]) is Some;
                assert(ips[j] == ip && kill_failure(replies[j]) is Some);
            } else {
                assert(ips[n] == ip && kill_failure(replies[n]) is Some);
            }
        }
        if exists|j: int|
            0 <= j < ips.len() && ips[j] == ip && #[trigger] kill_failure(replies[j]) is Some {
            let j = choose|j: int|
                0 <= j < ips.len() && ips[j] == ip && #[trigger] kill_failure(replies[j]) is Some;
            if j < n {
                assert(d[j] == ip && kill_failure(replies[j]) is Some);
            }
        }
    }
}

} // verus!
