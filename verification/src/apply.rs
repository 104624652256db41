//! One reconciliation pass: compare the kernel with the plan, rewrite the
//! chains if needed, and describe the policy that is installed afterwards.

use vstd::prelude::*;
use vstd::arithmetic::power2::{lemma2_to64, lemma2_to64_rest, lemma_pow2_adds, pow2};
use crate::addr::{addr_text, Ipv4Addr};
use crate::addr_map::{AddrMap, AddrNames};
use crate::answers;
use crate::answers::{Answers, NameResult};
use crate::config::{Config, FirewallConfig};
use crate::conntrack::{doomed, failures_of, kill, kill_calls, kill_failures, kill_set};
use crate::exec::{calls_in, replies_in, since, CallView, Exec, Reply};
use crate::fresh::{carried_times, carry_forward};
use crate::iptables::{
    apply_restore, chain_in_reply, clone_rules, entries_to_map, list_call, one_rule_each,
    read_chain, render_restore, restore_call, restore_in_reply, restore_text, rules_map, rules_of,
    unit_result, ChainRead, ChainView, Rule, RuleEntry,
};
use crate::number::{number_text, numeral};
use crate::plan::{
    all_required_are_fresh, all_required_have_addrs, compute, has_addr, kernel_states,
    names_from_kernel, plan_for, required_fresh, required_satisfied, states_of, NameState, Plan,
    PlanView, StateView,
};
use crate::order::{addr_lt, in_order};
use crate::secs::{longer_than, same_secs, signed_units, units, Secs};
use crate::status;
use crate::status::{PrevStatus, Status, StatusView};
use crate::text::{join, joined, opt_text, texts};

verus! {

// ---------------------------------------------------------------------------
// The answers
// ---------------------------------------------------------------------------

/// Answers older than this (in uptime seconds) are ignored: they belong to a
/// resolve run that is no longer current, so treating them as fresh would
/// re-publish stale data as if it had just been validated. Three timer
/// intervals.
pub const ANSWERS_MAX_AGE_SECS: u64 = 180;

/// The bits of `ANSWERS_MAX_AGE_SECS` as a time.
pub const MAX_AGE_BITS: u64 = 0x4066_8000_0000_0000;

/// Answers as they were read, with their age at that time and the texts of both
/// times.
#[derive(Debug, PartialEq, Eq)]
pub struct DatedAnswers {
    pub answers: Answers,
    /// The time since they were produced.
    pub age: Secs,
    /// The age in whole seconds.
    pub age_text: String,
    /// When they were produced, in whole seconds.
    pub generated_text: String,
}

/// Whether answers of this age are too old.
pub open spec fn is_stale(age: Secs) -> bool {
    longer_than(age, ANSWERS_MAX_AGE_SECS as nat)
}

/// Whether answers of the time `t` are the ones that were applied last.
pub open spec fn is_repeated(t: Secs, applied: Option<Secs>) -> bool {
    applied matches Some(u) && same_secs(u, t)
}

/// Why answers that are too old are not used.
pub open spec fn stale_error(age_text: Seq<char>) -> Seq<char> {
    "answers are "@ + age_text + "s old (limit "@ + numeral(ANSWERS_MAX_AGE_SECS as nat)
        + "s); treating resolution as failed"@
}

/// Why answers that were applied before are not used.
pub open spec fn repeated_error(generated_text: Seq<char>) -> Seq<char> {
    "answers generated at uptime "@ + generated_text
        + "s were already applied by the previous run; treating resolution as failed"@
}

/// Why answers cannot be used; `None` if they can.
pub open spec fn answers_problem(
    parsed: Result<DatedAnswers, String>,
    path: Seq<char>,
    applied: Option<Secs>,
) -> Option<Seq<char>> {
    match parsed {
        Err(e) => Some("cannot read answers "@ + path + ": "@ + e@),
        Ok(d) => if d.answers.schema != answers::SCHEMA {
            Some("answers schema "@ + numeral(d.answers.schema as nat) + " unsupported"@)
        } else if is_stale(d.age) {
            Some(stale_error(d.age_text@))
        } else if is_repeated(d.answers.generated_uptime_secs, applied) {
            Some(repeated_error(d.generated_text@))
        } else {
            None
        },
    }
}

/// The limit, as a number.
pub proof fn lemma_max_age()
    ensures
        signed_units(Secs { bits: MAX_AGE_BITS }) == ANSWERS_MAX_AGE_SECS * pow2(1075),
{
    lemma2_to64();
    lemma2_to64_rest();
    lemma_pow2_adds(45, 1030);
    assert(units(0x4066_8000_0000_0000) == 6333186975989760 * pow2(1030));
    assert(180 * pow2(1075) == 6333186975989760 * pow2(1030)) by (nonlinear_arith)
        requires
            pow2(1075) == 35184372088832 * pow2(1030),
    ;
}

/// What a run has in the way of answers.
#[derive(Debug, PartialEq, Eq)]
pub struct LoadedAnswers {
    pub answers: Answers,
    /// When they were produced, if they are usable.
    pub uptime: Option<Secs>,
    /// Why they are not usable.
    pub error: Option<String>,
}

/// Decide whether the answers that were read can be used. Missing, corrupt,
/// foreign-schema, stale or already applied answers are reported as an error
/// and treated like a failed resolution (every name keeps its last-known-good
/// addresses).
pub fn load_answers(
    parsed: Result<DatedAnswers, String>,
    path: &str,
    applied: Option<Secs>,
) -> (r: LoadedAnswers)
    ensures
        opt_text(r.error) == answers_problem(parsed, path@, applied),
        r.error is None ==> parsed is Ok && r.answers == parsed->Ok_0.answers && r.uptime == Some(
            r.answers.generated_uptime_secs,
        ),
        r.error is Some ==> r.uptime is None && r.answers.schema == answers::SCHEMA
            && r.answers.generated_uptime_secs.bits == 0 && r.answers.results@.len() == 0,
{
    let error = match parsed {
        Err(e) => {
            let mut s = "cannot read answers ".to_owned();
            s.append(path);
            s.append(": ");
            s.append(e.as_str());
            s
        },
        Ok(d) => {
            let t = d.answers.generated_uptime_secs;
            let seen = match applied {
                Some(u) => u.same(t),
                None => false,
            };
            proof {
                lemma_max_age();
            }
            if d.answers.schema != answers::SCHEMA {
                let mut s = "answers schema ".to_owned();
                s.append(number_text(d.answers.schema as u64).as_str());
                s.append(" unsupported");
                s
            } else if d.age.exceeds(Secs { bits: MAX_AGE_BITS }) {
                let mut s = "answers are ".to_owned();
                s.append(d.age_text.as_str());
                s.append("s old (limit ");
                s.append(number_text(ANSWERS_MAX_AGE_SECS).as_str());
                s.append("s); treating resolution as failed");
                s
            } else if seen {
                let mut s = "answers generated at uptime ".to_owned();
                s.append(d.generated_text.as_str());
                s.append(
                    "s were already applied by the previous run; treating resolution as failed",
                );
                s
            } else {
                return LoadedAnswers { answers: d.answers, uptime: Some(t), error: None };
            }
        },
    };
    LoadedAnswers {
        answers: Answers {
            schema: answers::SCHEMA,
            generated_uptime_secs: Secs { bits: 0 },
            results: Vec::new(),
        },
        uptime: None,
        error: Some(error),
    }
}

/// The marker of the answers most recently applied: those of this run, or
/// else the ones the previous run knew of, so a file that stops changing is
/// rejected on every following run, not just the first.
pub open spec fn marker(uptime: Option<Secs>, applied: Option<Secs>) -> Option<Secs> {
    match uptime {
        Some(t) => Some(t),
        None => applied,
    }
}

// ---------------------------------------------------------------------------
// Verification after a restore
// ---------------------------------------------------------------------------

/// Whether a chain as read back holds exactly `want`, one rule per address.
pub open spec fn holds(read: ChainView, want: AddrNames) -> bool {
    &&& one_rule_each(read)
    &&& read.rules.len() == want.dom().len()
    &&& rules_map(read.rules) == want
}

/// What is wrong with a chain that does not hold what it should.
pub open spec fn mismatch(chain: Seq<char>, read: ChainView, want: AddrNames) -> Seq<char> {
    chain + " holds "@ + numeral(read.rule_lines) + " rule(s) after restore, expected "@ + numeral(
        want.dom().len(),
    )
}

/// The mismatches of both chains.
pub open spec fn mismatches(
    fw: FirewallConfig,
    p: ChainView,
    m: ChainView,
    production: AddrNames,
    maintenance: AddrNames,
) -> Seq<Seq<char>> {
    (if holds(p, production) {
        Seq::empty()
    } else {
        seq![mismatch(fw.production_chain@, p, production)]
    }) + (if holds(m, maintenance) {
        Seq::empty()
    } else {
        seq![mismatch(fw.maintenance_chain@, m, maintenance)]
    })
}

/// The commands of a verification: list the production chain and, if that
/// worked, the maintenance chain.
pub open spec fn verify_calls(fw: FirewallConfig, replies: Seq<Reply>) -> Seq<CallView> {
    if chain_in_reply(fw.production_chain@, replies[0]) is Err {
        seq![list_call(fw.production_chain@)]
    } else {
        seq![list_call(fw.production_chain@), list_call(fw.maintenance_chain@)]
    }
}

/// What a verification concludes.
pub open spec fn verify_outcome(
    fw: FirewallConfig,
    production: AddrNames,
    maintenance: AddrNames,
    replies: Seq<Reply>,
) -> Result<(), Seq<char>> {
    match chain_in_reply(fw.production_chain@, replies[0]) {
        Err(e) => Err(e),
        Ok(p) => match chain_in_reply(fw.maintenance_chain@, replies[1]) {
            Err(e) => Err(e),
            Ok(m) => {
                let problems = mismatches(fw, p, m, production, maintenance);
                if problems.len() == 0 {
                    Ok(())
                } else {
                    Err("post-apply verification failed: "@ + joined(problems, "; "@))
                }
            },
        },
    }
}

/// Whether a chain as read back holds exactly `want`.
fn chain_holds(read: &ChainRead, want: &AddrMap) -> (r: bool)
    ensures
        r == holds(read@, want@),
{
    !read.is_dirty() && read.entries.len() == want.len() && entries_to_map(
        read.entries.as_slice(),
    ).same(want)
}

fn mismatch_text(chain: &str, read: &ChainRead, want: &AddrMap) -> (r: String)
    ensures
        r@ == mismatch(chain@, read@, want@),
{
    let mut s = chain.to_owned();
    s.append(" holds ");
    s.append(number_text(read.rule_lines as u64).as_str());
    s.append(" rule(s) after restore, expected ");
    s.append(number_text(want.len() as u64).as_str());
    s
}

/// Read both chains back after a restore and require them to equal the plan.
pub fn verify_chains<E: Exec>(cfg: &Config, exec: &mut E, plan: &Plan) -> (r: Result<(), String>)
    ensures
        old(exec).log().is_prefix_of(final(exec).log()),
        calls_in(since(old(exec).log(), final(exec).log())) == verify_calls(
            cfg.firewall,
            replies_in(since(old(exec).log(), final(exec).log())),
        ),
        unit_result(r) == verify_outcome(
            cfg.firewall,
            plan.production@,
            plan.maintenance@,
            replies_in(since(old(exec).log(), final(exec).log())),
        ),
{
    let ghost start = exec.log();
    let first = read_chain(exec, cfg.firewall.production_chain.as_str());
    let ghost l1 = exec.log();
    assert(l1 =~= start.push(l1.last()));
    assert(calls_in(since(start, l1)) =~= seq![l1.last().call]);
    assert(replies_in(since(start, l1))[0] == l1.last().reply);
    let prod = match first {
        Ok(c) => c,
        Err(e) => {
            return Err(e);
        },
    };
    let second = read_chain(exec, cfg.firewall.maintenance_chain.as_str());
    let ghost l2 = exec.log();
    assert(l2 =~= start.push(l1.last()).push(l2.last()));
    assert(calls_in(since(start, l2)) =~= seq![l1.last().call, l2.last().call]);
    assert(replies_in(since(start, l2))[0] == l1.last().reply);
    assert(replies_in(since(start, l2))[1] == l2.last().reply);
    let maint = match second {
        Ok(c) => c,
        Err(e) => {
            return Err(e);
        },
    };
    let ghost want = mismatches(
        cfg.firewall,
        prod@,
        maint@,
        plan.production@,
        plan.maintenance@,
    );
    let mut problems: Vec<String> = Vec::new();
    if !chain_holds(&prod, &plan.production) {
        problems.push(
            mismatch_text(cfg.firewall.production_chain.as_str(), &prod, &plan.production),
        );
    }
    if !chain_holds(&maint, &plan.maintenance) {
        problems.push(
            mismatch_text(cfg.firewall.maintenance_chain.as_str(), &maint, &plan.maintenance),
        );
    }
    assert(texts(problems@) =~= want);
    if problems.len() == 0 {
        Ok(())
    } else {
        let mut s = "post-apply verification failed: ".to_owned();
        s.append(join(&problems, "; ").as_str());
        Err(s)
    }
}

// ---------------------------------------------------------------------------
// Updating the chains
// ---------------------------------------------------------------------------

/// The commands of an update: restore and, if that worked, verify.
pub open spec fn update_calls(fw: FirewallConfig, plan: PlanView, replies: Seq<Reply>) -> Seq<
    CallView,
> {
    seq![restore_call(restore_text(fw, plan.production, plan.maintenance))] + (
    if restore_in_reply(replies[0]) is Ok {
        verify_calls(fw, replies.skip(1))
    } else {
        Seq::empty()
    })
}

/// What an update concludes.
pub open spec fn update_outcome(fw: FirewallConfig, plan: PlanView, replies: Seq<Reply>) -> Result<
    (),
    Seq<char>,
> {
    match restore_in_reply(replies[0]) {
        Err(e) => Err(e),
        Ok(_) => verify_outcome(fw, plan.production, plan.maintenance, replies.skip(1)),
    }
}

fn update_chains<E: Exec>(cfg: &Config, exec: &mut E, plan: &Plan) -> (r: Result<(), String>)
    ensures
        old(exec).log().is_prefix_of(final(exec).log()),
        calls_in(since(old(exec).log(), final(exec).log())) == update_calls(
            cfg.firewall,
            plan@,
            replies_in(since(old(exec).log(), final(exec).log())),
        ),
        unit_result(r) == update_outcome(
            cfg.firewall,
            plan@,
            replies_in(since(old(exec).log(), final(exec).log())),
        ),
{
    let ghost start = exec.log();
    let batch = render_restore(&cfg.firewall, &plan.production, &plan.maintenance);
    let restored = apply_restore(exec, batch.as_str());
    let ghost l1 = exec.log();
    assert(l1 =~= start.push(l1.last()));
    match restored {
        Err(e) => {
            proof {
                let t = since(start, l1);
                assert(replies_in(t)[0] == l1.last().reply);
                assert(calls_in(t) =~= update_calls(cfg.firewall, plan@, replies_in(t)));
            }
            Err(e)
        },
        Ok(_) => {
            let r = verify_chains(cfg, exec, plan);
            proof {
                let l2 = exec.log();
                let t = since(start, l2);
                let u = since(l1, l2);
                assert(t =~= seq![l1.last()] + u);
                assert(replies_in(t)[0] == l1.last().reply);
                assert(replies_in(t).skip(1) =~= replies_in(u));
                assert(calls_in(t) =~= seq![l1.last().call] + calls_in(u));
                assert(start.is_prefix_of(l2));
            }
            r
        },
    }
}

// ---------------------------------------------------------------------------
// The firewall step
// ---------------------------------------------------------------------------

/// The policy that is installed after the firewall step.
#[derive(Debug, PartialEq, Eq)]
pub struct Installed {
    /// A chain held something other than one rule per address.
    pub dirty: bool,
    /// The chains had to be rewritten.
    pub rewritten: bool,
    /// The chains hold exactly the planned policy.
    pub apply_ok: bool,
    /// The endpoints, as the installed policy has them.
    pub names: Vec<NameState>,
    pub production: AddrMap,
    pub maintenance: AddrMap,
    pub added: Vec<Ipv4Addr>,
    pub removed: Vec<Ipv4Addr>,
    pub errors: Vec<String>,
}

/// The contents of an [`Installed`].
pub struct InstalledView {
    pub dirty: bool,
    pub rewritten: bool,
    pub apply_ok: bool,
    pub names: Seq<StateView>,
    pub production: AddrNames,
    pub maintenance: AddrNames,
    pub added: Seq<Ipv4Addr>,
    pub removed: Seq<Ipv4Addr>,
    pub errors: Seq<Seq<char>>,
}

impl View for Installed {
    type V = InstalledView;

    open spec fn view(&self) -> InstalledView {
        InstalledView {
            dirty: self.dirty,
            rewritten: self.rewritten,
            apply_ok: self.apply_ok,
            names: states_of(self.names@),
            production: self.production@,
            maintenance: self.maintenance@,
            added: self.added@,
            removed: self.removed@,
            errors: texts(self.errors@),
        }
    }
}

/// The plan for the chains as they were read.
pub open spec fn plan_from(
    cfg: Config,
    results: Seq<NameResult>,
    p: ChainView,
    m: ChainView,
) -> PlanView {
    plan_for(cfg, results, rules_map(p.rules), rules_map(m.rules))
}

/// Whether a chain holds something other than one rule per address.
pub open spec fn any_dirty(p: ChainView, m: ChainView) -> bool {
    !one_rule_each(p) || !one_rule_each(m)
}

/// Whether the chains have to be rewritten: one of them holds something other
/// than one rule per address, or differs from the plan.
pub open spec fn needs_update(p: ChainView, m: ChainView, plan: PlanView) -> bool {
    ||| any_dirty(p, m)
    ||| plan.production != rules_map(p.rules)
    ||| plan.maintenance != rules_map(m.rules)
}

/// The errors that the plan itself records.
pub open spec fn plan_errors(plan: PlanView) -> Seq<Seq<char>> {
    match plan.error {
        Some(e) => seq![e],
        None => Seq::empty(),
    }
}

/// The plan is installed.
pub open spec fn installed_plan(plan: PlanView, dirty: bool, rewritten: bool) -> InstalledView {
    InstalledView {
        dirty,
        rewritten,
        apply_ok: true,
        names: plan.names,
        production: plan.production,
        maintenance: plan.maintenance,
        added: plan.added,
        removed: plan.removed,
        errors: plan_errors(plan),
    }
}

/// The rules of a chain as read anew, or as read before if that fails.
pub open spec fn reread(chain: Seq<char>, reply: Reply, before: ChainView) -> Seq<Rule> {
    match chain_in_reply(chain, reply) {
        Ok(c) => c.rules,
        Err(_) => before.rules,
    }
}

/// Why a name describes the kernel although there was a plan.
pub open spec fn retained() -> Seq<char> {
    "firewall update failed; previous policy retained"@
}

/// The update failed: what the kernel holds is what counts.
pub open spec fn installed_kernel(
    cfg: Config,
    plan: PlanView,
    dirty: bool,
    p: Seq<Rule>,
    m: Seq<Rule>,
    error: Seq<char>,
) -> InstalledView {
    InstalledView {
        dirty,
        rewritten: true,
        apply_ok: false,
        names: kernel_states(cfg.endpoints@, rules_map(p), retained()),
        production: rules_map(p),
        maintenance: rules_map(m),
        added: Seq::empty(),
        removed: Seq::empty(),
        errors: plan_errors(plan).push(error),
    }
}

/// The commands that follow once both chains were read: none if nothing has to
/// change; otherwise the update and, if it fails, both listings again.
pub open spec fn write_calls(
    cfg: Config,
    results: Seq<NameResult>,
    p: ChainView,
    m: ChainView,
    replies: Seq<Reply>,
) -> Seq<CallView> {
    let plan = plan_from(cfg, results, p, m);
    if !needs_update(p, m, plan) {
        Seq::empty()
    } else {
        update_calls(cfg.firewall, plan, replies) + (if update_outcome(cfg.firewall, plan, replies)
            is Ok {
            Seq::empty()
        } else {
            seq![
                list_call(cfg.firewall.production_chain@),
                list_call(cfg.firewall.maintenance_chain@),
            ]
        })
    }
}

/// The policy that is installed in the end, once both chains were read.
pub open spec fn write_outcome(
    cfg: Config,
    results: Seq<NameResult>,
    p: ChainView,
    m: ChainView,
    replies: Seq<Reply>,
) -> InstalledView {
    let plan = plan_from(cfg, results, p, m);
    if !needs_update(p, m, plan) {
        installed_plan(plan, false, false)
    } else {
        match update_outcome(cfg.firewall, plan, replies) {
            Ok(_) => installed_plan(plan, any_dirty(p, m), true),
            Err(e) => {
                let n = update_calls(cfg.firewall, plan, replies).len() as int;
                installed_kernel(
                    cfg,
                    plan,
                    any_dirty(p, m),
                    reread(cfg.firewall.production_chain@, replies[n], p),
                    reread(cfg.firewall.maintenance_chain@, replies[n + 1], m),
                    e,
                )
            },
        }
    }
}

/// The commands of the whole step, given what came back.
pub open spec fn firewall_calls(cfg: Config, results: Seq<NameResult>, replies: Seq<Reply>) -> Seq<
    CallView,
> {
    let list_p = list_call(cfg.firewall.production_chain@);
    let list_m = list_call(cfg.firewall.maintenance_chain@);
    match chain_in_reply(cfg.firewall.production_chain@, replies[0]) {
        Err(_) => seq![list_p],
        Ok(p) => match chain_in_reply(cfg.firewall.maintenance_chain@, replies[1]) {
            Err(_) => seq![list_p, list_m],
            Ok(m) => seq![list_p, list_m] + write_calls(cfg, results, p, m, replies.skip(2)),
        },
    }
}

/// What the whole step concludes, given what came back.
pub open spec fn firewall_outcome(
    cfg: Config,
    results: Seq<NameResult>,
    replies: Seq<Reply>,
) -> Result<InstalledView, Seq<char>> {
    match chain_in_reply(cfg.firewall.production_chain@, replies[0]) {
        Err(e) => Err(e),
        Ok(p) => match chain_in_reply(cfg.firewall.maintenance_chain@, replies[1]) {
            Err(e) => Err(e),
            Ok(m) => Ok(write_outcome(cfg, results, p, m, replies.skip(2))),
        },
    }
}

/// The contents of what the firewall step returns.
pub open spec fn installed_result(r: Result<Installed, String>) -> Result<
    InstalledView,
    Seq<char>,
> {
    match r {
        Ok(i) => Ok(i@),
        Err(e) => Err(e@),
    }
}

/// The rules of a chain as read anew, or as read before if that fails.
fn read_again<E: Exec>(exec: &mut E, chain: &str, before: &ChainRead) -> (r: Vec<RuleEntry>)
    ensures
        final(exec).log().len() == old(exec).log().len() + 1,
        final(exec).log().drop_last() == old(exec).log(),
        final(exec).log().last().call == list_call(chain@),
        rules_of(r@) == reread(chain@, final(exec).log().last().reply, before@),
{
    match read_chain(exec, chain) {
        Ok(c) => c.entries,
        Err(_) => clone_rules(&before.entries),
    }
}

/// Rewrites the chains if they differ from the plan or hold anything but one
/// rule per address.
fn write_chains<E: Exec>(
    cfg: &Config,
    answers: &Answers,
    exec: &mut E,
    prod: &ChainRead,
    maint: &ChainRead,
) -> (r: Installed)
    ensures
        old(exec).log().is_prefix_of(final(exec).log()),
        calls_in(since(old(exec).log(), final(exec).log())) == write_calls(
            *cfg,
            answers.results@,
            prod@,
            maint@,
            replies_in(since(old(exec).log(), final(exec).log())),
        ),
        r@ == write_outcome(
            *cfg,
            answers.results@,
            prod@,
            maint@,
            replies_in(since(old(exec).log(), final(exec).log())),
        ),
{
    let ghost start = exec.log();
    let plan = compute(cfg, answers, prod.entries.as_slice(), maint.entries.as_slice());
    let ghost pv = plan@;
    let mut errors: Vec<String> = Vec::new();
    match &plan.error {
        Some(e) => {
            errors.push(e.clone());
        },
        None => {},
    }
    assert(texts(errors@) =~= plan_errors(pv));
    let dirty = prod.is_dirty() || maint.is_dirty();
    let unchanged = !dirty && plan.production.same(&entries_to_map(prod.entries.as_slice()))
        && plan.maintenance.same(&entries_to_map(maint.entries.as_slice()));
    assert(unchanged == !needs_update(prod@, maint@, pv));
    let outcome = if unchanged {
        assert(calls_in(since(start, start)) =~= Seq::<CallView>::empty());
        Ok(())
    } else {
        update_chains(cfg, exec, &plan)
    };
    let ghost mid = exec.log();
    match outcome {
        Ok(_) => {
            proof {
                let t = since(start, mid);
                assert(calls_in(t) =~= write_calls(
                    *cfg,
                    answers.results@,
                    prod@,
                    maint@,
                    replies_in(t),
                ));
            }
            Installed {
                dirty,
                rewritten: !unchanged,
                apply_ok: true,
                names: plan.names,
                production: plan.production,
                maintenance: plan.maintenance,
                added: plan.added,
                removed: plan.removed,
                errors,
            }
        },
        Err(e) => {
            let ghost was = texts(errors@).push(e@);
            errors.push(e);
            assert(texts(errors@) =~= was);
            let p = read_again(exec, cfg.firewall.production_chain.as_str(), prod);
            let ghost l1 = exec.log();
            let m = read_again(exec, cfg.firewall.maintenance_chain.as_str(), maint);
            let ghost l2 = exec.log();
            proof {
                assert(l1 =~= mid.push(l1.last()));
                assert(l2 =~= mid.push(l1.last()).push(l2.last()));
                let u = since(start, mid);
                let t = since(start, l2);
                let n = u.len() as int;
                assert(t =~= u.push(l1.last()).push(l2.last()));
                assert(calls_in(t) =~= calls_in(u) + seq![l1.last().call, l2.last().call]);
                assert(replies_in(t)[n] == l1.last().reply);
                assert(replies_in(t)[n + 1] == l2.last().reply);
                assert(replies_in(t).take(n) =~= replies_in(u));
                assert(calls_in(u).len() == n);
                lemma_update_prefix(cfg.firewall, pv, replies_in(u), replies_in(t));
                assert(start.is_prefix_of(l2));
            }
            let names = names_from_kernel(
                cfg,
                p.as_slice(),
                "firewall update failed; previous policy retained",
            );
            let r = Installed {
                dirty,
                rewritten: true,
                apply_ok: false,
                names,
                production: entries_to_map(p.as_slice()),
                maintenance: entries_to_map(m.as_slice()),
                added: Vec::new(),
                removed: Vec::new(),
                errors,
            };
            assert(r@.added =~= Seq::<Ipv4Addr>::empty());
            assert(r@.removed =~= Seq::<Ipv4Addr>::empty());
            r
        },
    }
}

/// An update looks only at the replies to its own commands.
proof fn lemma_update_prefix(
    fw: FirewallConfig,
    plan: PlanView,
    own: Seq<Reply>,
    all: Seq<Reply>,
)
    requires
        own.len() == update_calls(fw, plan, own).len(),
        own.is_prefix_of(all),
    ensures
        update_calls(fw, plan, own) == update_calls(fw, plan, all),
        update_outcome(fw, plan, own) == update_outcome(fw, plan, all),
{
    assert(own[0] == all[0]);
    if restore_in_reply(own[0]) is Ok {
        let a = own.skip(1);
        let b = all.skip(1);
        assert(own.len() == 1 + verify_calls(fw, a).len());
        assert(a[0] == own[1] && b[0] == all[1] && own[1] == all[1]);
        if chain_in_reply(fw.production_chain@, a[0]) is Ok {
            assert(a[1] == own[2] && b[1] == all[2] && own[2] == all[2]);
        }
    }
}

/// Reads both chains, computes the plan and installs it if needed. Everything
/// in the result describes the policy that is actually installed: when the
/// update failed, that is what the kernel holds, read back once more.
pub fn apply_firewall<E: Exec>(cfg: &Config, answers: &Answers, exec: &mut E) -> (r: Result<
    Installed,
    String,
>)
    ensures
        old(exec).log().is_prefix_of(final(exec).log()),
        calls_in(since(old(exec).log(), final(exec).log())) == firewall_calls(
            *cfg,
            answers.results@,
            replies_in(since(old(exec).log(), final(exec).log())),
        ),
        installed_result(r) == firewall_outcome(
            *cfg,
            answers.results@,
            replies_in(since(old(exec).log(), final(exec).log())),
        ),
{
    let ghost start = exec.log();
    let first = read_chain(exec, cfg.firewall.production_chain.as_str());
    let ghost l1 = exec.log();
    assert(l1 =~= start.push(l1.last()));
    assert(calls_in(since(start, l1)) =~= seq![l1.last().call]);
    assert(replies_in(since(start, l1))[0] == l1.last().reply);
    let prod = match first {
        Ok(c) => c,
        Err(e) => {
            return Err(e);
        },
    };
    let second = read_chain(exec, cfg.firewall.maintenance_chain.as_str());
    let ghost l2 = exec.log();
    assert(l2 =~= start.push(l1.last()).push(l2.last()));
    assert(calls_in(since(start, l2)) =~= seq![l1.last().call, l2.last().call]);
    assert(replies_in(since(start, l2))[0] == l1.last().reply);
    assert(replies_in(since(start, l2))[1] == l2.last().reply);
    let maint = match second {
        Ok(c) => c,
        Err(e) => {
            return Err(e);
        },
    };
    let r = write_chains(cfg, answers, exec, &prod, &maint);
    proof {
        let l3 = exec.log();
        let u = since(l2, l3);
        let t = since(start, l3);
        assert(t =~= seq![l1.last(), l2.last()] + u);
        assert(calls_in(t) =~= seq![l1.last().call, l2.last().call] + calls_in(u));
        assert(replies_in(t)[0] == l1.last().reply);
        assert(replies_in(t)[1] == l2.last().reply);
        assert(replies_in(t).skip(2) =~= replies_in(u));
        assert(start.is_prefix_of(l3));
    }
    Ok(r)
}

// ---------------------------------------------------------------------------
// The sweep
// ---------------------------------------------------------------------------

/// What became of the connections that must not exist.
#[derive(Debug, PartialEq, Eq)]
pub struct Swept {
    /// Destinations whose entries were deleted.
    pub killed: Vec<Ipv4Addr>,
    /// Destinations whose deletion failed.
    pub kill_failed: Vec<Ipv4Addr>,
    pub errors: Vec<String>,
}

/// The contents of a [`Swept`].
pub struct SweptView {
    pub killed: Seq<Ipv4Addr>,
    pub kill_failed: Seq<Ipv4Addr>,
    pub errors: Seq<Seq<char>>,
}

impl View for Swept {
    type V = SweptView;

    open spec fn view(&self) -> SweptView {
        SweptView {
            killed: self.killed@,
            kill_failed: self.kill_failed@,
            errors: texts(self.errors@),
        }
    }
}

/// The addresses of a list of failures.
pub open spec fn failed_addrs(failures: Seq<(Ipv4Addr, Seq<char>)>) -> Seq<Ipv4Addr> {
    failures.map_values(|f: (Ipv4Addr, Seq<char>)| f.0)
}

/// The error recorded for a failed deletion.
pub open spec fn sweep_error(f: (Ipv4Addr, Seq<char>)) -> Seq<char> {
    "conntrack -D "@ + addr_text(f.0) + ": "@ + f.1
}

/// The errors of a list of failures.
pub open spec fn sweep_errors(failures: Seq<(Ipv4Addr, Seq<char>)>) -> Seq<Seq<char>> {
    failures.map_values(|f: (Ipv4Addr, Seq<char>)| sweep_error(f))
}

/// Being outside a list of addresses.
pub open spec fn outside(list: Seq<Ipv4Addr>) -> spec_fn(Ipv4Addr) -> bool {
    |ip: Ipv4Addr| !list.contains(ip)
}

/// What a sweep of `ips` concludes, given what came back.
pub open spec fn swept(ips: Seq<Ipv4Addr>, replies: Seq<Reply>) -> SweptView {
    let failures = kill_failures(ips, replies);
    SweptView {
        killed: ips.filter(outside(failed_addrs(failures))),
        kill_failed: failed_addrs(failures),
        errors: sweep_errors(failures),
    }
}

/// Connection hygiene, derived from the installed policy and the mode: deletes
/// the conntrack entries of every destination that must not have any.
pub fn sweep<E: Exec>(exec: &mut E, mode: &str, production: &AddrMap, maintenance: &AddrMap) -> (r:
    Swept)
    ensures
        old(exec).log().is_prefix_of(final(exec).log()),
        calls_in(since(old(exec).log(), final(exec).log())) == kill_calls(
            doomed(mode@, production@, maintenance@),
        ),
        r@ == swept(
            doomed(mode@, production@, maintenance@),
            replies_in(since(old(exec).log(), final(exec).log())),
        ),
{
    let to_kill = kill_set(mode, production, maintenance);
    let failed = kill(exec, to_kill.as_slice());
    let ghost failures = failures_of(failed@);
    let mut kill_failed: Vec<Ipv4Addr> = Vec::new();
    let mut errors: Vec<String> = Vec::new();
    let mut i: usize = 0;
    while i < failed.len()
        invariant
            i <= failed@.len(),
            failures == failures_of(failed@),
            kill_failed@ == failed_addrs(failures).take(i as int),
            texts(errors@) == sweep_errors(failures).take(i as int),
        decreases failed@.len() - i,
    {
        let mut s = "conntrack -D ".to_owned();
        s.append(failed[i].0.text().as_str());
        s.append(": ");
        s.append(failed[i].1.as_str());
        kill_failed.push(failed[i].0);
        assert(s@ == sweep_error(failures[i as int]));
        let ghost was = texts(errors@).push(s@);
        errors.push(s);
        assert(texts(errors@) =~= was);
        assert(kill_failed@ =~= failed_addrs(failures).take(i + 1));
        assert(texts(errors@) =~= sweep_errors(failures).take(i + 1));
        i += 1;
    }
    assert(failed_addrs(failures).take(i as int) =~= failed_addrs(failures));
    assert(sweep_errors(failures).take(i as int) =~= sweep_errors(failures));
    let ghost p = outside(kill_failed@);
    let mut killed: Vec<Ipv4Addr> = Vec::new();
    let mut j: usize = 0;
    assert(to_kill@.take(0).filter(p) =~= Seq::<Ipv4Addr>::empty()) by {
        reveal(Seq::filter);
    }
    while j < to_kill.len()
        invariant
            j <= to_kill@.len(),
            p == outside(kill_failed@),
            killed@ == to_kill@.take(j as int).filter(p),
        decreases to_kill@.len() - j,
    {
        proof {
            assert(to_kill@.take(j + 1) == to_kill@.take(j as int).push(to_kill@[j as int]));
            to_kill@.take(j as int).lemma_filter_push(to_kill@[j as int], p);
        }
        if !has_addr(&kill_failed, to_kill[j]) {
            killed.push(to_kill[j]);
        }
        j += 1;
    }
    assert(to_kill@.take(j as int) == to_kill@);
    Swept { killed, kill_failed, errors }
}

// ---------------------------------------------------------------------------
// The status
// ---------------------------------------------------------------------------

/// At most one error.
pub open spec fn error_list(e: Option<Seq<char>>) -> Seq<Seq<char>> {
    match e {
        Some(t) => seq![t],
        None => Seq::empty(),
    }
}

/// The error recorded when the hosts file could not be written.
pub open spec fn hosts_error(path: Seq<char>, written: Result<(), String>) -> Option<Seq<char>> {
    match written {
        Ok(_) => None,
        Err(e) => Some("writing "@ + path + ": "@ + e@),
    }
}

/// The status of a run whose policy is `installed`.
pub open spec fn status_of(
    boot_id: Seq<char>,
    generated: Secs,
    prev: PrevStatus,
    loaded: LoadedAnswers,
    installed: InstalledView,
    hosts_path: Seq<char>,
    written: Result<(), String>,
    mode: Seq<char>,
    sweep: SweptView,
) -> StatusView {
    StatusView {
        schema: status::SCHEMA,
        boot_id,
        generated,
        answers: loaded.uptime,
        applied: marker(loaded.uptime, prev.applied_answers_uptime_secs),
        mode,
        apply_ok: installed.apply_ok,
        hosts_ok: written is Ok,
        conntrack_ok: sweep.kill_failed.len() == 0,
        required_satisfied: installed.apply_ok && written is Ok && all_required_have_addrs(
            installed.names,
        ),
        required_fresh: installed.apply_ok && all_required_are_fresh(installed.names),
        last_fresh: carried_times(prev.last_fresh_uptime_secs@, installed.names, generated),
        endpoints: installed.names,
        production: in_order(installed.production.dom(), addr_lt()),
        maintenance: in_order(installed.maintenance.dom(), addr_lt()),
        added: installed.added,
        removed: installed.removed,
        killed: sweep.killed,
        kill_failed: sweep.kill_failed,
        errors: error_list(opt_text(loaded.error)) + installed.errors + error_list(
            hosts_error(hosts_path, written),
        ) + sweep.errors,
    }
}

/// Appends the texts of `more` to `out`.
fn append_texts(out: &mut Vec<String>, more: Vec<String>)
    ensures
        texts(final(out)@) == texts(old(out)@) + texts(more@),
{
    let ghost start = texts(out@);
    let ghost all = texts(more@);
    let mut i: usize = 0;
    assert(texts(out@) =~= start + all.take(0));
    while i < more.len()
        invariant
            i <= more@.len(),
            all == texts(more@),
            texts(out@) == start + all.take(i as int),
        decreases more@.len() - i,
    {
        let ghost was = texts(out@).push(more@[i as int]@);
        out.push(more[i].clone());
        assert(texts(out@) =~= was);
        assert(texts(out@) =~= start + all.take(i + 1));
        i += 1;
    }
    assert(all.take(i as int) =~= all);
}

/// The status of a run. Everything in it describes the policy that is
/// actually installed. Names whose source is fresh in this run get its time as
/// their last fresh time; the rest carry the previous run's value forward.
pub fn summarize(
    boot_id: String,
    generated: Secs,
    prev: PrevStatus,
    loaded: LoadedAnswers,
    installed: Installed,
    hosts_path: &str,
    written: Result<(), String>,
    mode: String,
    sweep: Swept,
) -> (r: Status)
    ensures
        r@ == status_of(
            boot_id@,
            generated,
            prev,
            loaded,
            installed@,
            hosts_path@,
            written,
            mode@,
            sweep@,
        ),
{
    let applied = match loaded.uptime {
        Some(t) => Some(t),
        None => prev.applied_answers_uptime_secs,
    };
    let hosts_ok = written.is_ok();
    let conntrack_ok = sweep.kill_failed.len() == 0;
    let mut errors: Vec<String> = Vec::new();
    match &loaded.error {
        Some(e) => {
            errors.push(e.clone());
        },
        None => {},
    }
    assert(texts(errors@) =~= error_list(opt_text(loaded.error)));
    append_texts(&mut errors, installed.errors);
    let ghost so_far = texts(errors@);
    match written {
        Ok(_) => {
            assert(so_far =~= so_far + error_list(None));
        },
        Err(e) => {
            let mut s = "writing ".to_owned();
            s.append(hosts_path);
            s.append(": ");
            s.append(e.as_str());
            let ghost was = so_far.push(s@);
            errors.push(s);
            assert(texts(errors@) =~= was);
            assert(was =~= so_far + error_list(hosts_error(hosts_path@, written)));
        },
    }
    append_texts(&mut errors, sweep.errors);
    let satisfied = installed.apply_ok && hosts_ok && required_satisfied(&installed.names);
    let fresh = installed.apply_ok && required_fresh(&installed.names);
    let last_fresh = carry_forward(&prev.last_fresh_uptime_secs, &installed.names, generated);
    Status {
        schema: status::SCHEMA,
        boot_id,
        generated_uptime_secs: generated,
        answers_uptime_secs: loaded.uptime,
        applied_answers_uptime_secs: applied,
        mode,
        apply_ok: installed.apply_ok,
        hosts_ok,
        conntrack_ok,
        required_satisfied: satisfied,
        required_fresh: fresh,
        last_fresh_uptime_secs: last_fresh,
        endpoints: installed.names,
        production: installed.production.keys(),
        maintenance: installed.maintenance.keys(),
        added: installed.added,
        removed: installed.removed,
        killed: sweep.killed,
        kill_failed: sweep.kill_failed,
        errors,
    }
}

} // verus!
