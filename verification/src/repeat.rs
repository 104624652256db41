//! What holds over several passes of one boot while the answers file does not
//! change.

use vstd::prelude::*;

use crate::addr::Ipv4Addr;
use crate::addr_map::AddrNames;
use crate::answers;
use crate::answers::{result_for, Answers, NameResult, Outcome};
use crate::apply::{
    firewall_calls, firewall_outcome, holds, is_repeated, is_stale, mismatches, needs_update,
    plan_from, repeated_error, reread, retained, stale_error, status_of, swept, update_calls,
    update_outcome, verify_outcome, DatedAnswers, InstalledView, SweptView,
};
use crate::config::{config_problem, names_of, Config, Endpoint};
use crate::conntrack::{doomed, kill_failure, kill_failures};
use crate::exec::Reply;
use crate::fresh::{has_fresh_state, has_state};
use crate::iptables::{
    chain_in_reply, lemma_distinct_count, list_call, restore_in_reply, rules_map,
};
use crate::pass::{law_fresh_times_are_carried, law_unchanged_chains_are_left_alone, listed};
use crate::plan::{
    addrs_of, all_required_have_addrs, forbidden, from_answer, kernel_states, plan_for,
    planned_states, PlanView, Source, StateView,
};
use crate::policy::{
    law_chain_records_names, law_failed_resolution_changes_nothing, law_fresh_answer_sets_addresses,
    law_maintenance_only_grows, law_planned_names_are_plain, lemma_planned_finite,
};
use crate::run::{begins, same_boot, Started};
use crate::secs::{is_nan, Secs};
use crate::status::{PrevStatus, StatusView};
use crate::text::opt_text;

verus! {

/// One pass: what it found and what came of it.
pub struct Pass {
    /// The status file, as far as it could be read.
    pub found: Option<PrevStatus>,
    /// The answers file.
    pub dated: DatedAnswers,
    pub started: Started,
    /// What came back from the commands of the firewall step.
    pub replies: Seq<Reply>,
    pub installed: InstalledView,
    pub hosts_path: Seq<char>,
    pub written: Result<(), String>,
    pub mode: Seq<char>,
    /// What came back from the commands of the sweep.
    pub sweep_replies: Seq<Reply>,
    pub generated: Secs,
}

impl Pass {
    /// The destinations to sweep.
    pub open spec fn doomed(self) -> Seq<Ipv4Addr> {
        doomed(self.mode, self.installed.production, self.installed.maintenance)
    }

    /// What became of them.
    pub open spec fn swept(self) -> SweptView {
        swept(self.doomed(), self.sweep_replies)
    }

    /// The status that the pass writes.
    pub open spec fn status(self) -> StatusView {
        status_of(
            self.started.boot_id@,
            self.generated,
            self.started.prev,
            self.started.loaded,
            self.installed,
            self.hosts_path,
            self.written,
            self.mode,
            self.swept(),
        )
    }

    /// The results that the pass goes by.
    pub open spec fn results(self) -> Seq<NameResult> {
        self.started.loaded.answers.results@
    }

    /// The plan of the pass.
    pub open spec fn plan(self, cfg: Config) -> PlanView {
        plan_from(
            cfg,
            self.results(),
            chain_in_reply(cfg.firewall.production_chain@, self.replies[0])->Ok_0,
            chain_in_reply(cfg.firewall.maintenance_chain@, self.replies[1])->Ok_0,
        )
    }

    /// The pass is one of the boot `boot_id` that found the answers `a` at
    /// `path` and could list both chains.
    pub open spec fn ran(self, cfg: Config, boot_id: Seq<char>, a: Answers, path: Seq<char>) -> bool {
        &&& self.dated.answers == a
        &&& begins(self.started, boot_id, self.found, Ok(self.dated), path)
        &&& self.replies.len() == firewall_calls(cfg, self.results(), self.replies).len()
        &&& firewall_outcome(cfg, self.results(), self.replies) == Ok::<InstalledView, Seq<char>>(
            self.installed,
        )
        &&& self.sweep_replies.len() == self.doomed().len()
    }

    /// The answers are of the right schema, not too old, and not the ones that
    /// the status found says were applied before.
    pub open spec fn finds_news(self, boot_id: Seq<char>) -> bool {
        &&& self.dated.answers.schema == answers::SCHEMA
        &&& !is_stale(self.dated.age)
        &&& same_boot(self.found, boot_id) ==> !is_repeated(
            self.dated.answers.generated_uptime_secs,
            self.found->0.applied_answers_uptime_secs,
        )
    }

    /// The pass found the status that `before` wrote.
    pub open spec fn follows(self, before: Pass) -> bool {
        self.found matches Some(p) && {
            &&& p.boot_id@ == before.status().boot_id
            &&& p.applied_answers_uptime_secs == before.status().applied
            &&& p.last_fresh_uptime_secs@ == before.status().last_fresh
        }
    }

    /// The pass found the chains as `before` had installed them.
    pub open spec fn finds_installed(self, cfg: Config, before: Pass) -> bool {
        &&& listed(cfg.firewall.production_chain@, self.replies[0]) matches Some(c) && holds(
            c,
            before.installed.production,
        )
        &&& listed(cfg.firewall.maintenance_chain@, self.replies[1]) matches Some(c) && holds(
            c,
            before.installed.maintenance,
        )
    }

    /// Every command succeeds: a batch, if there is one, is accepted, and the
    /// kernel then lists what it says; the hosts file is written; no deletion
    /// of the sweep fails.
    pub open spec fn commands_succeed(self, cfg: Config) -> bool {
        let fw = cfg.firewall;
        let p = chain_in_reply(fw.production_chain@, self.replies[0])->Ok_0;
        let m = chain_in_reply(fw.maintenance_chain@, self.replies[1])->Ok_0;
        let plan = self.plan(cfg);
        &&& needs_update(p, m, plan) ==> {
            &&& restore_in_reply(self.replies[2]) is Ok
            &&& listed(fw.production_chain@, self.replies[3]) matches Some(c) && holds(
                c,
                plan.production,
            )
            &&& listed(fw.maintenance_chain@, self.replies[4]) matches Some(c) && holds(
                c,
                plan.maintenance,
            )
        }
        &&& self.written is Ok
        &&& forall|j: int|
            0 <= j < self.sweep_replies.len() ==> kill_failure(#[trigger] self.sweep_replies[j])
                is None
    }
}

/// Passes of one boot, one after the other, that all found the answers `a`,
/// which were news to the first of them.
pub open spec fn repeated(
    cfg: Config,
    boot_id: Seq<char>,
    a: Answers,
    path: Seq<char>,
    passes: Seq<Pass>,
) -> bool {
    &&& passes.len() > 0
    &&& !is_nan(a.generated_uptime_secs)
    &&& forall|k: int| 0 <= k < passes.len() ==> (#[trigger] passes[k]).ran(cfg, boot_id, a, path)
    &&& forall|k: int, j: int|
        0 <= j && k == j + 1 && k < passes.len() ==> (#[trigger] passes[k]).follows(
            #[trigger] passes[j],
        )
    &&& passes[0].finds_news(boot_id)
}

/// Why answers that were applied before are rejected: as too old, in time, or
/// else as applied before.
pub open spec fn rejection(d: DatedAnswers) -> Seq<char> {
    if is_stale(d.age) {
        stale_error(d.age_text@)
    } else {
        repeated_error(d.generated_text@)
    }
}

/// Every address of the chain carries a name, and only names of endpoints.
pub open spec fn configured(endpoints: Seq<Endpoint>, production: AddrNames) -> bool {
    forall|ip: Ipv4Addr| #[trigger]
        production.contains_key(ip) ==> production[ip] != Set::<Seq<char>>::empty() && forall|
            n: Seq<char>,
        | #[trigger]
            production[ip].contains(n) ==> names_of(endpoints).contains(n)
}

/// A pass has one state per endpoint, under the endpoint's name; without
/// results none of them is fresh.
proof fn lemma_states(cfg: Config, results: Seq<NameResult>, replies: Seq<Reply>, i: InstalledView)
    requires
        firewall_outcome(cfg, results, replies) == Ok::<InstalledView, Seq<char>>(i),
    ensures
        i.names.len() == cfg.endpoints@.len(),
        forall|j: int|
            0 <= j < i.names.len() ==> (#[trigger] i.names[j]).name == names_of(cfg.endpoints@)[j]
                && i.names[j].required == cfg.endpoints@[j].required,
        results.len() == 0 ==> forall|j: int|
            0 <= j < i.names.len() ==> !from_answer((#[trigger] i.names[j]).source),
{
    let fw = cfg.firewall;
    let p = chain_in_reply(fw.production_chain@, replies[0])->Ok_0;
    let m = chain_in_reply(fw.maintenance_chain@, replies[1])->Ok_0;
    let plan = plan_from(cfg, results, p, m);
    let planned = planned_states(cfg.endpoints@, results, rules_map(p.rules));
    assert forall|j: int| 0 <= j < planned.len() implies (#[trigger] planned[j]).name == names_of(
        cfg.endpoints@,
    )[j] && planned[j].required == cfg.endpoints@[j].required && (results.len() == 0
        ==> !from_answer(planned[j].source)) by {
        if results.len() == 0 {
            assert(result_for(results, names_of(cfg.endpoints@)[j]) is None);
        }
    }
    if !i.apply_ok {
        let rest = replies.skip(2);
        let k = update_calls(fw, plan, rest).len() as int;
        let now = reread(fw.production_chain@, rest[k], p);
        assert(i.names == kernel_states(cfg.endpoints@, rules_map(now), retained()));
    }
}

/// A pass that follows one whose marker is the time of the answers rejects
/// them and keeps the marker.
proof fn lemma_rejected(p: Pass, before: Pass, boot_id: Seq<char>, a: Answers, path: Seq<char>)
    requires
        begins(p.started, boot_id, p.found, Ok(p.dated), path),
        p.dated.answers == a,
        !is_nan(a.generated_uptime_secs),
        p.follows(before),
        before.started.boot_id@ == boot_id,
        before.status().applied == Some(a.generated_uptime_secs),
        a.schema == answers::SCHEMA,
    ensures
        p.started.prev.last_fresh_uptime_secs@ == before.status().last_fresh,
        p.results().len() == 0,
        p.status().answers is None,
        p.status().applied == Some(a.generated_uptime_secs),
        p.status().errors.len() > 0,
        p.status().errors[0] == rejection(p.dated),
        opt_text(p.started.loaded.error) == Some(rejection(p.dated)),
{
    assert(p.started.prev.applied_answers_uptime_secs == Some(a.generated_uptime_secs));
}

/// Without fresh states, a pass over the same names keeps the times.
proof fn lemma_times_kept(first: Pass, p: Pass)
    requires
        p.started.prev.last_fresh_uptime_secs@ == first.status().last_fresh,
        p.installed.names.len() == first.installed.names.len(),
        forall|j: int|
            0 <= j < p.installed.names.len() ==> (#[trigger] p.installed.names[j]).name
                == first.installed.names[j].name && !from_answer(p.installed.names[j].source),
    ensures
        p.status().last_fresh == first.status().last_fresh,
{
    let was = first.status().last_fresh;
    let now = p.status().last_fresh;
    assert forall|n: Seq<char>| #[trigger] now.contains_key(n) == was.contains_key(n) && (
    was.contains_key(n) ==> now[n] == was[n]) by {
        law_fresh_times_are_carried(was, p.installed.names, p.generated, n);
        assert(!has_fresh_state(p.installed.names, n));
        if was.contains_key(n) {
            let j = choose|j: int|
                0 <= j < first.installed.names.len() && (
                #[trigger] first.installed.names[j]).name == n;
            assert(p.installed.names[j].name == n);
            assert(has_state(p.installed.names, n));
        }
    }
    assert(now =~= was);
}

/// Answers are used once: as long as the file does not change, every later
/// pass rejects it (as applied before or, in time, as too old), keeps the
/// marker, takes nothing as fresh and leaves the times of the last fresh
/// answers as they are.
pub proof fn law_unchanged_answers_stay_rejected(
    cfg: Config,
    boot_id: Seq<char>,
    a: Answers,
    path: Seq<char>,
    passes: Seq<Pass>,
    k: int,
)
    requires
        repeated(cfg, boot_id, a, path, passes),
        0 < k < passes.len(),
    ensures
        ({
            let st = passes[k].status();
            &&& passes[k].results().len() == 0
            &&& st.answers is None
            &&& st.applied == Some(a.generated_uptime_secs)
            &&& st.errors.len() > 0
            &&& st.errors[0] == rejection(passes[k].dated)
            &&& forall|j: int|
                0 <= j < st.endpoints.len() ==> !from_answer((#[trigger] st.endpoints[j]).source)
            &&& (exists|j: int|
                0 <= j < cfg.endpoints@.len() && (#[trigger] cfg.endpoints@[j]).required)
                ==> !st.required_fresh
            &&& st.last_fresh == passes[0].status().last_fresh
        }),
    decreases k,
{
    let p = passes[k];
    let b = passes[k - 1];
    let first = passes[0];
    assert(first.ran(cfg, boot_id, a, path));
    assert(b.ran(cfg, boot_id, a, path));
    assert(p.ran(cfg, boot_id, a, path));
    assert(p.follows(b));
    if k > 1 {
        law_unchanged_answers_stay_rejected(cfg, boot_id, a, path, passes, k - 1);
    } else {
        assert(b.status().applied == Some(a.generated_uptime_secs));
    }
    lemma_rejected(p, b, boot_id, a, path);
    lemma_states(cfg, first.results(), first.replies, first.installed);
    lemma_states(cfg, p.results(), p.replies, p.installed);
    if exists|j: int| 0 <= j < cfg.endpoints@.len() && (#[trigger] cfg.endpoints@[j]).required {
        let j = choose|j: int|
            0 <= j < cfg.endpoints@.len() && (#[trigger] cfg.endpoints@[j]).required;
        assert(p.installed.names[j].required);
        assert(!from_answer(p.installed.names[j].source));
    }
    lemma_times_kept(first, p);
}

/// While the answers file does not change and the kernel keeps what the first
/// pass installed, every later pass leaves the chains alone: it only lists
/// them, and reports the same policy. Every endpoint keeps its addresses, as
/// last known good, so the required endpoints stay satisfied, and the pass
/// succeeds if the hosts file and the sweep do.
///
/// The first pass has to have installed its plan. It must not have gone over
/// the limit of addresses, unless the chain it kept is made up of names of
/// endpoints.
pub proof fn law_unchanged_answers_leave_the_chains(
    cfg: Config,
    boot_id: Seq<char>,
    a: Answers,
    path: Seq<char>,
    passes: Seq<Pass>,
    k: int,
)
    requires
        config_problem(cfg) is None,
        repeated(cfg, boot_id, a, path, passes),
        0 < k < passes.len(),
        passes[0].installed.apply_ok,
        passes[0].installed.errors.len() == 0 || configured(
            cfg.endpoints@,
            passes[0].installed.production,
        ),
        passes[k].finds_installed(cfg, passes[0]),
    ensures
        ({
            let first = passes[0].installed;
            let now = passes[k].installed;
            let st = passes[k].status();
            &&& firewall_calls(cfg, passes[k].results(), passes[k].replies) == seq![
                list_call(cfg.firewall.production_chain@),
                list_call(cfg.firewall.maintenance_chain@),
            ]
            &&& now.production == first.production
            &&& now.maintenance == first.maintenance
            &&& st.apply_ok
            &&& now.names.len() == first.names.len()
            &&& forall|j: int, ip: Ipv4Addr|
                0 <= j < now.names.len() ==> (#[trigger] now.names[j].addrs.contains(ip)
                    <==> first.names[j].addrs.contains(ip))
            &&& forall|j: int|
                0 <= j < now.names.len() ==> (#[trigger] now.names[j]).source == (
                if first.names[j].addrs.len() > 0 {
                    Source::LastKnownGood
                } else {
                    Source::Missing
                })
            &&& passes[k].written is Ok ==> st.hosts_ok && (st.required_satisfied
                <==> all_required_have_addrs(first.names))
            &&& st.conntrack_ok == (passes[k].swept().kill_failed.len() == 0)
            &&& passes[0].installed.errors.len() == 0 ==> now.errors.len() == 0
        }),
{
    law_unchanged_answers_stay_rejected(cfg, boot_id, a, path, passes, k);
    assert(passes[0].ran(cfg, boot_id, a, path));
    assert(passes[k].ran(cfg, boot_id, a, path));
    lemma_chains_left(cfg, passes[0], passes[k]);
}

/// A pass without results that finds the chains as the first one had installed
/// them leaves them alone.
proof fn lemma_chains_left(cfg: Config, first: Pass, p: Pass)
    requires
        config_problem(cfg) is None,
        firewall_outcome(cfg, first.results(), first.replies) == Ok::<InstalledView, Seq<char>>(
            first.installed,
        ),
        firewall_outcome(cfg, p.results(), p.replies) == Ok::<InstalledView, Seq<char>>(
            p.installed,
        ),
        p.results().len() == 0,
        first.installed.apply_ok,
        first.installed.errors.len() == 0 || configured(
            cfg.endpoints@,
            first.installed.production,
        ),
        p.finds_installed(cfg, first),
    ensures
        firewall_calls(cfg, p.results(), p.replies) == seq![
            list_call(cfg.firewall.production_chain@),
            list_call(cfg.firewall.maintenance_chain@),
        ],
        p.installed.apply_ok,
        p.installed.production == first.installed.production,
        p.installed.maintenance == first.installed.maintenance,
        p.installed.names.len() == first.installed.names.len(),
        forall|j: int, ip: Ipv4Addr|
            0 <= j < p.installed.names.len() ==> (#[trigger] p.installed.names[j].addrs.contains(ip)
                <==> first.installed.names[j].addrs.contains(ip)),
        forall|j: int|
            0 <= j < p.installed.names.len() ==> (#[trigger] p.installed.names[j]).source == (
            if first.installed.names[j].addrs.len() > 0 {
                Source::LastKnownGood
            } else {
                Source::Missing
            }),
        all_required_have_addrs(p.installed.names) == all_required_have_addrs(
            first.installed.names,
        ),
        first.installed.errors.len() == 0 ==> p.installed.errors.len() == 0,
{
    let fw = cfg.firewall;
    let c = chain_in_reply(fw.production_chain@, p.replies[0])->Ok_0;
    let d = chain_in_reply(fw.maintenance_chain@, p.replies[1])->Ok_0;
    let c0 = chain_in_reply(fw.production_chain@, first.replies[0])->Ok_0;
    let d0 = chain_in_reply(fw.maintenance_chain@, first.replies[1])->Ok_0;
    lemma_distinct_count(c0.rules);
    let before = plan_for(cfg, first.results(), rules_map(c0.rules), rules_map(d0.rules));
    lemma_next_plan(cfg, first.results(), rules_map(c0.rules), rules_map(d0.rules));
    assert(p.results() =~= Seq::<NameResult>::empty());
    let plan = plan_from(cfg, p.results(), c, d);
    assert(plan == plan_for(cfg, Seq::empty(), before.production, before.maintenance));
    law_unchanged_chains_are_left_alone(cfg, p.results(), p.replies, c, d);
    assert(p.installed.names == plan.names);
    assert forall|j: int, ip: Ipv4Addr| 0 <= j < plan.names.len() implies (
    #[trigger] plan.names[j].addrs.contains(ip) <==> before.names[j].addrs.contains(ip)) by {
        assert(same_addrs(plan.names[j], before.names[j]));
    }
}

/// Once a plan is installed, a plan without results is the same policy, with
/// the addresses of every state as last known good.
proof fn lemma_next_plan(
    cfg: Config,
    results: Seq<NameResult>,
    production: AddrNames,
    maintenance: AddrNames,
)
    requires
        config_problem(cfg) is None,
        production.dom().finite(),
        ({
            let plan = plan_for(cfg, results, production, maintenance);
            plan.error is None || configured(cfg.endpoints@, plan.production)
        }),
    ensures
        ({
            let plan = plan_for(cfg, results, production, maintenance);
            let next = plan_for(cfg, Seq::empty(), plan.production, plan.maintenance);
            &&& next.production == plan.production
            &&& next.maintenance == plan.maintenance
            &&& next.names.len() == plan.names.len()
            &&& forall|j: int|
                0 <= j < next.names.len() ==> {
                    &&& same_addrs(#[trigger] next.names[j], plan.names[j])
                    &&& next.names[j].source == (if plan.names[j].addrs.len() > 0 {
                        Source::LastKnownGood
                    } else {
                        Source::Missing
                    })
                }
            &&& all_required_have_addrs(next.names) == all_required_have_addrs(plan.names)
            &&& plan.error is None ==> next.error is None
        }),
{
    let plan = plan_for(cfg, results, production, maintenance);
    let next = plan_for(cfg, Seq::empty(), plan.production, plan.maintenance);
    if plan.error is None {
        lemma_configured(cfg, results, production, maintenance);
    }
    lemma_planned_finite(cfg, results, production, maintenance);
    law_failed_resolution_changes_nothing(cfg, plan.production, plan.maintenance);
    law_maintenance_only_grows(cfg, results, production, maintenance);
    assert forall|ip: Ipv4Addr| plan.maintenance.contains_key(ip) implies next.maintenance[ip]
        == plan.maintenance[ip] by {
        assert(next.maintenance[ip] =~= plan.maintenance[ip]);
    }
    assert(next.maintenance =~= plan.maintenance);
    let all = names_of(cfg.endpoints@);
    assert forall|j: int| 0 <= j < next.names.len() implies {
        &&& same_addrs(#[trigger] next.names[j], plan.names[j])
        &&& next.names[j].source == (if plan.names[j].addrs.len() > 0 {
            Source::LastKnownGood
        } else {
            Source::Missing
        })
        &&& next.names[j].required == plan.names[j].required
        &&& next.names[j].addrs.len() > 0 <==> plan.names[j].addrs.len() > 0
    } by {
        let x = next.names[j].addrs;
        let y = plan.names[j].addrs;
        assert(result_for(Seq::<NameResult>::empty(), all[j]) is None);
        assert(x == addrs_of(plan.production, all[j]));
        law_chain_records_names(cfg, results, production, maintenance, j);
        if x.len() > 0 {
            assert(x.contains(x[0]));
            assert(y.contains(x[0]));
        }
        if y.len() > 0 {
            assert(y.contains(y[0]));
            assert(x.contains(y[0]));
        }
    }
    if all_required_have_addrs(plan.names) {
        assert forall|j: int| 0 <= j < next.names.len() && (
        #[trigger] next.names[j]).required implies next.names[j].addrs.len() > 0 by {
            assert(plan.names[j].required);
        }
    }
    if all_required_have_addrs(next.names) {
        assert forall|j: int| 0 <= j < plan.names.len() && (
        #[trigger] plan.names[j]).required implies plan.names[j].addrs.len() > 0 by {
            assert(next.names[j].required);
        }
    }
}

/// Both states list the same addresses.
spec fn same_addrs(a: StateView, b: StateView) -> bool {
    forall|ip: Ipv4Addr| #[trigger] a.addrs.contains(ip) <==> b.addrs.contains(ip)
}

/// A plan within the limit holds names of endpoints only, at least one per
/// address.
proof fn lemma_configured(
    cfg: Config,
    results: Seq<NameResult>,
    production: AddrNames,
    maintenance: AddrNames,
)
    requires
        config_problem(cfg) is None,
        plan_for(cfg, results, production, maintenance).error is None,
    ensures
        configured(cfg.endpoints@, plan_for(cfg, results, production, maintenance).production),
{
    let plan = plan_for(cfg, results, production, maintenance);
    assert forall|ip: Ipv4Addr| #[trigger] plan.production.contains_key(ip) implies
        plan.production[ip] != Set::<Seq<char>>::empty() && forall|n: Seq<char>| #[trigger]
        plan.production[ip].contains(n) ==> names_of(cfg.endpoints@).contains(n) by {
        law_planned_names_are_plain(cfg, results, production, maintenance, ip);
        let names = plan.names;
        let j = choose|j: int| 0 <= j < names.len() && (#[trigger] names[j]).addrs.contains(ip);
        assert(plan.production[ip].contains(names[j].name));
    }
}

// ---------------------------------------------------------------------------
// The whole story
// ---------------------------------------------------------------------------

/// Where every command succeeds, the plan is installed and nothing is left of
/// what was to be swept.
proof fn lemma_success(cfg: Config, p: Pass)
    requires
        p.replies.len() == firewall_calls(cfg, p.results(), p.replies).len(),
        firewall_outcome(cfg, p.results(), p.replies) == Ok::<InstalledView, Seq<char>>(
            p.installed,
        ),
        p.sweep_replies.len() == p.doomed().len(),
        p.commands_succeed(cfg),
    ensures
        p.installed.apply_ok,
        p.installed.names == p.plan(cfg).names,
        p.installed.production == p.plan(cfg).production,
        p.installed.errors.len() == 0 <==> p.plan(cfg).error is None,
        p.status().apply_ok && p.status().hosts_ok && p.status().conntrack_ok,
        p.swept().errors.len() == 0,
{
    let fw = cfg.firewall;
    let c = chain_in_reply(fw.production_chain@, p.replies[0])->Ok_0;
    let d = chain_in_reply(fw.maintenance_chain@, p.replies[1])->Ok_0;
    let plan = p.plan(cfg);
    let rest = p.replies.skip(2);
    if needs_update(c, d, plan) {
        let checks = rest.skip(1);
        assert(rest[0] == p.replies[2]);
        assert(checks[0] == p.replies[3] && checks[1] == p.replies[4]);
        let vp = chain_in_reply(fw.production_chain@, checks[0])->Ok_0;
        let vm = chain_in_reply(fw.maintenance_chain@, checks[1])->Ok_0;
        assert(mismatches(fw, vp, vm, plan.production, plan.maintenance) =~= Seq::empty());
        assert(verify_outcome(fw, plan.production, plan.maintenance, checks) is Ok);
        assert(update_outcome(fw, plan, rest) is Ok);
    }
    lemma_no_failures(p.doomed(), p.sweep_replies);
}

proof fn lemma_no_failures(ips: Seq<Ipv4Addr>, replies: Seq<Reply>)
    requires
        ips.len() <= replies.len(),
        forall|j: int| 0 <= j < replies.len() ==> kill_failure(#[trigger] replies[j]) is None,
    ensures
        kill_failures(ips, replies).len() == 0,
    decreases ips.len(),
{
    if ips.len() > 0 {
        lemma_no_failures(ips.drop_last(), replies);
        assert(kill_failure(replies[ips.len() - 1]) is None);
    }
}

/// Answers are applied once, seen from the outside. Passes of one boot find
/// one and the same answers file, which is news to the first of them; its plan
/// keeps to the limit of addresses, every command of the first pass and of
/// pass `k` succeeds, and the kernel keeps what the first pass installed. Then,
/// for an endpoint `i` with a positive answer:
///
/// * the first pass succeeds without errors and reports the endpoint as fresh;
/// * pass `k` succeeds and only lists the chains. It rejects the answers,
///   which is its only error, and keeps the marker. The endpoint keeps its
///   addresses as last known good, nothing is fresh, and the last fresh time
///   is still that of the first pass.
pub proof fn law_answers_are_applied_once(
    cfg: Config,
    boot_id: Seq<char>,
    a: Answers,
    path: Seq<char>,
    passes: Seq<Pass>,
    k: int,
    i: int,
)
    requires
        config_problem(cfg) is None,
        repeated(cfg, boot_id, a, path, passes),
        0 < k < passes.len(),
        passes[0].plan(cfg).error is None,
        passes[0].commands_succeed(cfg),
        passes[k].commands_succeed(cfg),
        passes[k].finds_installed(cfg, passes[0]),
        0 <= i < cfg.endpoints@.len(),
        result_for(a.results@, names_of(cfg.endpoints@)[i]) matches Some(r) && r.outcome
            == Outcome::Resolved && r.addrs@.len() > 0 && forbidden(r.addrs@).len() == 0,
    ensures
        ({
            let name = names_of(cfg.endpoints@)[i];
            let r = result_for(a.results@, name)->0;
            let t = a.generated_uptime_secs;
            let st0 = passes[0].status();
            let st = passes[k].status();
            &&& st0.apply_ok && st0.hosts_ok && st0.conntrack_ok
            &&& st0.errors.len() == 0
            &&& st0.answers == Some(t)
            &&& st0.applied == Some(t)
            &&& st0.endpoints[i].name == name
            &&& st0.endpoints[i].source == Source::Fresh
            &&& st0.last_fresh.contains_key(name)
            &&& st0.last_fresh[name] == passes[0].generated
            &&& firewall_calls(cfg, passes[k].results(), passes[k].replies) == seq![
                list_call(cfg.firewall.production_chain@),
                list_call(cfg.firewall.maintenance_chain@),
            ]
            &&& st.apply_ok && st.hosts_ok && st.conntrack_ok
            &&& st.errors == seq![rejection(passes[k].dated)]
            &&& st.answers is None
            &&& st.applied == Some(t)
            &&& cfg.endpoints@[i].required ==> !st.required_fresh
            &&& st.required_satisfied == st0.required_satisfied
            &&& st.endpoints[i].name == name
            &&& st.endpoints[i].source == Source::LastKnownGood
            &&& forall|ip: Ipv4Addr| #[trigger]
                st.endpoints[i].addrs.contains(ip) <==> r.addrs@.contains(ip)
            &&& st.last_fresh == st0.last_fresh
            &&& st.production == st0.production
            &&& st.maintenance == st0.maintenance
        }),
{
    let first = passes[0];
    let p = passes[k];
    let name = names_of(cfg.endpoints@)[i];
    let r = result_for(a.results@, name)->0;
    assert(first.ran(cfg, boot_id, a, path));
    assert(p.ran(cfg, boot_id, a, path));
    lemma_success(cfg, first);
    lemma_success(cfg, p);
    lemma_accepted(first, boot_id, a, path);
    law_unchanged_answers_stay_rejected(cfg, boot_id, a, path, passes, k);
    law_unchanged_answers_leave_the_chains(cfg, boot_id, a, path, passes, k);
    lemma_states(cfg, first.results(), first.replies, first.installed);
    lemma_states(cfg, p.results(), p.replies, p.installed);
    let c = chain_in_reply(cfg.firewall.production_chain@, first.replies[0])->Ok_0;
    let d = chain_in_reply(cfg.firewall.maintenance_chain@, first.replies[1])->Ok_0;
    law_fresh_answer_sets_addresses(cfg, a.results@, rules_map(c.rules), rules_map(d.rules), i);
    let s = first.installed.names[i];
    assert(s.source == Source::Fresh && s.name == name);
    assert(r.addrs@.contains(r.addrs@[0]));
    assert(s.addrs.contains(r.addrs@[0]));
    assert(has_fresh_state(first.installed.names, name));
    assert forall|ip: Ipv4Addr| #[trigger]
        p.installed.names[i].addrs.contains(ip) <==> r.addrs@.contains(ip) by {
        assert(p.installed.names[i].addrs.contains(ip) <==> s.addrs.contains(ip));
    }
    if cfg.endpoints@[i].required {
        assert(cfg.endpoints@[i].required);
    }
    assert(first.status().errors =~= Seq::<Seq<char>>::empty());
    lemma_rejection_alone(p);
}

/// A pass that starts with news uses them.
proof fn lemma_accepted(p: Pass, boot_id: Seq<char>, a: Answers, path: Seq<char>)
    requires
        p.dated.answers == a,
        begins(p.started, boot_id, p.found, Ok(p.dated), path),
        p.finds_news(boot_id),
    ensures
        p.started.loaded.error is None,
        p.started.loaded.answers == a,
        p.started.loaded.uptime == Some(a.generated_uptime_secs),
{
}

/// Without any other error, the status of a pass holds that of its answers.
proof fn lemma_rejection_alone(p: Pass)
    requires
        opt_text(p.started.loaded.error) is Some,
        p.installed.errors.len() == 0,
        p.written is Ok,
        p.swept().errors.len() == 0,
    ensures
        p.status().errors == seq![opt_text(p.started.loaded.error)->0],
{
    assert(p.status().errors =~= seq![opt_text(p.started.loaded.error)->0]);
}

} // verus!
