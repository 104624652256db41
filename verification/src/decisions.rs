//! What a run decides, said of what it was given: which answers it uses, when
//! it rewrites the chains, when it is content, and what its status tells.

use vstd::prelude::*;

use crate::addr::{addr_text, Ipv4Addr};
use crate::addr_map::AddrNames;
use crate::answers::{NameResult, Outcome};
use crate::apply::{
    answers_problem, failed_addrs, firewall_calls, firewall_outcome, is_stale, lemma_max_age,
    mismatches, outside, plan_from, reread, status_of, sweep_error, swept, update_calls,
    update_outcome, verify_calls, verify_outcome, DatedAnswers, InstalledView, LoadedAnswers,
    SweptView, MAX_AGE_BITS,
};
use crate::config::{names_of, Config, FirewallConfig};
use crate::conntrack::{
    holds_zero_summary, kill_calls, kill_failure, kill_failures, reports_no_match,
    zero_summary_at,
};
use crate::exec::{CallView, OutputView, Reply};
use crate::fresh::carried_times;
use crate::iptables::{
    chain_in_reply, lemma_distinct_count, list_call, restore_call, restore_in_reply, restore_text,
    rules_map, ChainView,
};
use crate::number::{numeral, signed_numeral};
use crate::order::{addr_lt, ascending, lemma_addr_order, lemma_in_order};
use crate::pass::law_failure_describes_the_kernel;
use crate::plan::{addrs_of, plan_for, PlanView, Source, StateView};
use crate::policy::lemma_addrs_of;
use crate::secs::{is_nan, lemma_units_increase, same_secs, signed_units, units, Secs};
use crate::status::PrevStatus;
use crate::text::{joined, trimmed};

verus! {

// ---------------------------------------------------------------------------
// Times
// ---------------------------------------------------------------------------

/// When two times are the same: their bits are, and are those of a number; or
/// both are zero, of either sign.
pub proof fn law_same_time(a: Secs, b: Secs)
    ensures
        ({
            let (x, y) = (a.bits as nat % 0x8000_0000_0000_0000, b.bits as nat
                % 0x8000_0000_0000_0000);
            same_secs(a, b) <==> (x == 0 && y == 0) || (a.bits == b.bits && x
                <= 0x7ff0_0000_0000_0000)
        }),
{
    let (x, y) = (a.bits as nat % 0x8000_0000_0000_0000, b.bits as nat % 0x8000_0000_0000_0000);
    assert(units(0) == 0);
    if x > 0 {
        lemma_units_increase(0, x);
    }
    if y > 0 {
        lemma_units_increase(0, y);
    }
    if x < y {
        lemma_units_increase(x, y);
    }
    if y < x {
        lemma_units_increase(y, x);
    }
}

/// When a time is longer than another, positive one: its bits are larger and
/// are those of a number.
pub proof fn law_longer_time(t: Secs, limit: Secs)
    requires
        0 < limit.bits < 0x7ff0_0000_0000_0000,
    ensures
        !is_nan(t) && signed_units(t) > signed_units(limit) <==> limit.bits < t.bits
            <= 0x7ff0_0000_0000_0000,
{
    let a = t.bits as nat % 0x8000_0000_0000_0000;
    let b = limit.bits as nat;
    assert(units(0) == 0);
    lemma_units_increase(0, b);
    if a < b {
        lemma_units_increase(a, b);
    }
    if b < a {
        lemma_units_increase(b, a);
    }
}

/// The age limit: answers are stale exactly if their age is above 180 seconds,
/// whose bits are `0x4066_8000_0000_0000`; up to and including infinity.
pub proof fn law_age_limit(age: Secs)
    ensures
        is_stale(age) <==> 0x4066_8000_0000_0000 < age.bits <= 0x7ff0_0000_0000_0000,
{
    let a = age.bits as nat % 0x8000_0000_0000_0000;
    let b = MAX_AGE_BITS as nat;
    lemma_max_age();
    assert(units(0) == 0);
    lemma_units_increase(0, b);
    if a < b {
        lemma_units_increase(a, b);
    }
    if b < a {
        lemma_units_increase(b, a);
    }
    if a > 0 {
        lemma_units_increase(0, a);
    }
    assert(signed_units(Secs { bits: MAX_AGE_BITS }) == units(b));
}

/// Which answers are used: those that could be read, have the known schema, are
/// not stale and are not the ones applied last. Every other reason is told, the
/// first that holds.
pub proof fn law_answers_are_used(
    d: DatedAnswers,
    e: String,
    path: Seq<char>,
    applied: Option<Secs>,
)
    ensures
        answers_problem(Err(e), path, applied) == Some("cannot read answers "@ + path + ": "@ + e@),
        ({
            let p = answers_problem(Ok(d), path, applied);
            let old = 0x4066_8000_0000_0000 < d.age.bits <= 0x7ff0_0000_0000_0000;
            let again = applied is Some && same_secs(
                applied->0,
                d.answers.generated_uptime_secs,
            );
            &&& d.answers.schema != 1 ==> p == Some(
                "answers schema "@ + numeral(d.answers.schema as nat) + " unsupported"@,
            )
            &&& d.answers.schema == 1 && old ==> p == Some(
                "answers are "@ + d.age_text@ + "s old (limit "@ + numeral(180)
                    + "s); treating resolution as failed"@,
            )
            &&& d.answers.schema == 1 && !old && again ==> p == Some(
                "answers generated at uptime "@ + d.generated_text@
                    + "s were already applied by the previous run; treating resolution as failed"@,
            )
            &&& d.answers.schema == 1 && !old && !again ==> p is None
        }),
{
    law_age_limit(d.age);
}

// ---------------------------------------------------------------------------
// The chains
// ---------------------------------------------------------------------------

/// The chain as read holds exactly `want`: as many rule lines, rules and
/// addresses, and the same names at each address.
pub open spec fn exactly(c: ChainView, want: AddrNames) -> bool {
    &&& c.rule_lines == want.dom().len()
    &&& c.rules.len() == want.dom().len()
    &&& rules_map(c.rules) == want
}

/// When a verification is content: both chains could be listed, and each holds
/// exactly what was planned. Otherwise it tells which chain does not, how many
/// rule lines it has and how many were expected.
pub proof fn law_verification(
    fw: FirewallConfig,
    production: AddrNames,
    maintenance: AddrNames,
    replies: Seq<Reply>,
    p: ChainView,
    m: ChainView,
)
    requires
        chain_in_reply(fw.production_chain@, replies[0]) == Ok::<ChainView, Seq<char>>(p),
        chain_in_reply(fw.maintenance_chain@, replies[1]) == Ok::<ChainView, Seq<char>>(m),
    ensures
        ({
            let r = verify_outcome(fw, production, maintenance, replies);
            let a = fw.production_chain@ + " holds "@ + numeral(p.rule_lines)
                + " rule(s) after restore, expected "@ + numeral(production.dom().len());
            let b = fw.maintenance_chain@ + " holds "@ + numeral(m.rule_lines)
                + " rule(s) after restore, expected "@ + numeral(maintenance.dom().len());
            let bad_p = !exactly(p, production);
            let bad_m = !exactly(m, maintenance);
            &&& r is Ok <==> !bad_p && !bad_m
            &&& bad_p && !bad_m ==> r == Err::<(), Seq<char>>(
                "post-apply verification failed: "@ + a,
            )
            &&& !bad_p && bad_m ==> r == Err::<(), Seq<char>>(
                "post-apply verification failed: "@ + b,
            )
            &&& bad_p && bad_m ==> r == Err::<(), Seq<char>>(
                "post-apply verification failed: "@ + (a + "; "@ + b),
            )
        }),
{
    lemma_distinct_count(p.rules);
    lemma_distinct_count(m.rules);
    let problems = mismatches(fw, p, m, production, maintenance);
    reveal_with_fuel(joined, 3);
    if problems.len() == 2 {
        assert(problems.drop_last() =~= seq![problems[0]]);
    }
}

/// A verification fails with the reason why a chain could not be listed.
pub proof fn law_verification_needs_listings(
    fw: FirewallConfig,
    production: AddrNames,
    maintenance: AddrNames,
    replies: Seq<Reply>,
)
    ensures
        ({
            let r = verify_outcome(fw, production, maintenance, replies);
            let p = chain_in_reply(fw.production_chain@, replies[0]);
            let m = chain_in_reply(fw.maintenance_chain@, replies[1]);
            &&& p matches Err(e) ==> r == Err::<(), Seq<char>>(e)
            &&& p is Ok ==> (m matches Err(e) ==> r == Err::<(), Seq<char>>(e))
        }),
{
}

/// When the chains are rewritten: unless both are clean and hold what is
/// planned already. If they are left alone the step ends there, and it counts
/// as a success.
pub proof fn law_chains_are_rewritten_if_needed(
    cfg: Config,
    results: Seq<NameResult>,
    replies: Seq<Reply>,
    p: ChainView,
    m: ChainView,
)
    requires
        chain_in_reply(cfg.firewall.production_chain@, replies[0]) == Ok::<ChainView, Seq<char>>(p),
        chain_in_reply(cfg.firewall.maintenance_chain@, replies[1]) == Ok::<ChainView, Seq<char>>(
            m,
        ),
    ensures
        ({
            let plan = plan_from(cfg, results, p, m);
            let calls = firewall_calls(cfg, results, replies);
            let r = firewall_outcome(cfg, results, replies);
            let fit = exactly(p, plan.production) && exactly(m, plan.maintenance);
            &&& calls[0] == list_call(cfg.firewall.production_chain@)
            &&& calls[1] == list_call(cfg.firewall.maintenance_chain@)
            &&& fit <==> calls.len() == 2
            &&& !fit ==> calls[2] == restore_call(
                restore_text(cfg.firewall, plan.production, plan.maintenance),
            )
            &&& r matches Ok(i) && (i.rewritten <==> !fit)
            &&& fit ==> r->Ok_0.apply_ok && !r->Ok_0.dirty
        }),
{
    lemma_distinct_count(p.rules);
    lemma_distinct_count(m.rules);
    let plan = plan_from(cfg, results, p, m);
    let rest = replies.skip(2);
    let two = seq![
        list_call(cfg.firewall.production_chain@),
        list_call(cfg.firewall.maintenance_chain@),
    ];
    assert(two + Seq::<CallView>::empty() =~= two);
    assert(update_calls(cfg.firewall, plan, rest).len() > 0);
    assert(update_calls(cfg.firewall, plan, rest)[0] == restore_call(
        restore_text(cfg.firewall, plan.production, plan.maintenance),
    ));
}

/// A chain that cannot be listed ends the step at once, with the reason.
pub proof fn law_unreadable_chain_ends_the_step(
    cfg: Config,
    results: Seq<NameResult>,
    replies: Seq<Reply>,
)
    ensures
        ({
            let p = chain_in_reply(cfg.firewall.production_chain@, replies[0]);
            let m = chain_in_reply(cfg.firewall.maintenance_chain@, replies[1]);
            let calls = firewall_calls(cfg, results, replies);
            let r = firewall_outcome(cfg, results, replies);
            &&& p matches Err(e) ==> r == Err::<InstalledView, Seq<char>>(e) && calls == seq![
                list_call(cfg.firewall.production_chain@),
            ]
            &&& p is Ok && m is Err ==> r == Err::<InstalledView, Seq<char>>(m->Err_0) && calls
                == seq![
                list_call(cfg.firewall.production_chain@),
                list_call(cfg.firewall.maintenance_chain@),
            ]
            &&& p is Ok && m is Ok ==> r is Ok
        }),
{
}

/// What an update takes: the restore must succeed, and then the verification of
/// the chains as listed afterwards. Only then are they listed at all.
pub proof fn law_update(fw: FirewallConfig, plan: PlanView, replies: Seq<Reply>)
    requires
        replies.len() == update_calls(fw, plan, replies).len(),
    ensures
        ({
            let r = update_outcome(fw, plan, replies);
            let calls = update_calls(fw, plan, replies);
            let restored = restore_in_reply(replies[0]);
            &&& restored matches Err(e) ==> r == Err::<(), Seq<char>>(e) && calls.len() == 1
            &&& restored is Ok ==> {
                &&& r == verify_outcome(
                    fw,
                    plan.production,
                    plan.maintenance,
                    seq![replies[1], replies[2]],
                )
                &&& calls[1] == list_call(fw.production_chain@)
                &&& chain_in_reply(fw.production_chain@, replies[1]) is Err ==> calls.len() == 2
                &&& chain_in_reply(fw.production_chain@, replies[1]) is Ok ==> calls.len() == 3
                    && calls[2] == list_call(fw.maintenance_chain@)
            }
        }),
{
    let rest = replies.skip(1);
    if restore_in_reply(replies[0]) is Ok {
        assert(replies.len() > 1);
        assert(rest[0] == replies[1]);
        if chain_in_reply(fw.production_chain@, replies[1]) is Ok {
            assert(replies.len() == 3);
            assert(rest[1] == replies[2]);
        }
    }
}

/// What a verification asks for: the one chain and, if it could be listed, the
/// other one.
pub proof fn law_verification_lists_both_chains(fw: FirewallConfig, replies: Seq<Reply>)
    ensures
        ({
            let calls = verify_calls(fw, replies);
            &&& calls[0] == list_call(fw.production_chain@)
            &&& chain_in_reply(fw.production_chain@, replies[0]) is Err ==> calls.len() == 1
            &&& chain_in_reply(fw.production_chain@, replies[0]) is Ok ==> calls.len() == 2
                && calls[1] == list_call(fw.maintenance_chain@)
        }),
{
}

/// The plan of a pass is the plan for the chains as they were listed, each rule
/// for its address and with its names.
pub proof fn law_plan_of_a_pass(
    cfg: Config,
    results: Seq<NameResult>,
    p: ChainView,
    m: ChainView,
)
    ensures
        plan_from(cfg, results, p, m) == plan_for(
            cfg,
            results,
            rules_map(p.rules),
            rules_map(m.rules),
        ),
{
}

/// All commands of a pass that has to update the chains: both listings, the
/// update and, only if that fails, both listings again.
pub proof fn law_commands_of_an_update(
    cfg: Config,
    results: Seq<NameResult>,
    replies: Seq<Reply>,
    p: ChainView,
    m: ChainView,
)
    requires
        chain_in_reply(cfg.firewall.production_chain@, replies[0]) == Ok::<ChainView, Seq<char>>(p),
        chain_in_reply(cfg.firewall.maintenance_chain@, replies[1]) == Ok::<ChainView, Seq<char>>(
            m,
        ),
        firewall_calls(cfg, results, replies).len() > 2,
    ensures
        ({
            let fw = cfg.firewall;
            let plan = plan_from(cfg, results, p, m);
            let both = seq![list_call(fw.production_chain@), list_call(fw.maintenance_chain@)];
            let update = update_calls(fw, plan, replies.skip(2));
            firewall_calls(cfg, results, replies) == (if update_outcome(
                fw,
                plan,
                replies.skip(2),
            ) is Ok {
                both + update
            } else {
                both + update + both
            })
        }),
{
    let fw = cfg.firewall;
    let plan = plan_from(cfg, results, p, m);
    let both = seq![list_call(fw.production_chain@), list_call(fw.maintenance_chain@)];
    let update = update_calls(fw, plan, replies.skip(2));
    let none = Seq::<CallView>::empty();
    assert(both + none =~= both);
    assert(update + none =~= update);
    assert(both + (update + both) =~= both + update + both);
}

/// What a pass reports once it has updated the chains: the plan, if the update
/// was a success; the rules that were dirty before it, in either case.
pub proof fn law_updated_chains_are_reported(
    cfg: Config,
    results: Seq<NameResult>,
    replies: Seq<Reply>,
    p: ChainView,
    m: ChainView,
    i: InstalledView,
)
    requires
        chain_in_reply(cfg.firewall.production_chain@, replies[0]) == Ok::<ChainView, Seq<char>>(p),
        chain_in_reply(cfg.firewall.maintenance_chain@, replies[1]) == Ok::<ChainView, Seq<char>>(
            m,
        ),
        firewall_outcome(cfg, results, replies) == Ok::<InstalledView, Seq<char>>(i),
    ensures
        ({
            let plan = plan_from(cfg, results, p, m);
            let clean = p.rule_lines == p.rules.len() && m.rule_lines == m.rules.len() && rules_map(
                p.rules,
            ).dom().len() == p.rules.len() && rules_map(m.rules).dom().len() == m.rules.len();
            &&& i.dirty <==> !clean
            &&& i.apply_ok <==> !i.rewritten || update_outcome(
                cfg.firewall,
                plan,
                replies.skip(2),
            ) is Ok
            &&& i.apply_ok ==> i.names == plan.names && i.production == plan.production
                && i.maintenance == plan.maintenance && i.added == plan.added && i.removed
                == plan.removed
            &&& i.apply_ok ==> i.errors == (if plan.error is Some {
                seq![plan.error->0]
            } else {
                Seq::empty()
            })
            &&& !i.apply_ok ==> {
                let e = update_outcome(cfg.firewall, plan, replies.skip(2))->Err_0;
                i.errors == (if plan.error is Some {
                    seq![plan.error->0, e]
                } else {
                    seq![e]
                })
            }
        }),
{
    lemma_distinct_count(p.rules);
    lemma_distinct_count(m.rules);
    let plan = plan_from(cfg, results, p, m);
    if !i.apply_ok {
        let e = update_outcome(cfg.firewall, plan, replies.skip(2))->Err_0;
        if plan.error is Some {
            assert(i.errors =~= seq![plan.error->0, e]);
        } else {
            assert(i.errors =~= seq![e]);
        }
    }
}

/// What a pass tells of the endpoints when its update failed: what the kernel
/// holds for each of them, and that the update failed. The rules that count are
/// those of the last listing, or of the first one where that cannot be had.
pub proof fn law_failed_update_describes_endpoints(
    cfg: Config,
    results: Seq<NameResult>,
    replies: Seq<Reply>,
    i: InstalledView,
    k: int,
)
    requires
        replies.len() == firewall_calls(cfg, results, replies).len(),
        firewall_outcome(cfg, results, replies) == Ok::<InstalledView, Seq<char>>(i),
        !i.apply_ok,
        0 <= k < cfg.endpoints@.len(),
    ensures
        ({
            let fw = cfg.firewall;
            let n = replies.len();
            let name = names_of(cfg.endpoints@)[k];
            let s = i.names[k];
            let known = exists|ip: Ipv4Addr| #[trigger]
                i.production.contains_key(ip) && i.production[ip].contains(name);
            let p = if chain_in_reply(fw.production_chain@, replies[n - 2]) is Ok {
                chain_in_reply(fw.production_chain@, replies[n - 2])
            } else {
                chain_in_reply(fw.production_chain@, replies[0])
            };
            let m = if chain_in_reply(fw.maintenance_chain@, replies[n - 1]) is Ok {
                chain_in_reply(fw.maintenance_chain@, replies[n - 1])
            } else {
                chain_in_reply(fw.maintenance_chain@, replies[1])
            };
            &&& i.production == rules_map(p->Ok_0.rules)
            &&& i.maintenance == rules_map(m->Ok_0.rules)
            &&& i.names.len() == cfg.endpoints@.len()
            &&& s.name == name
            &&& s.required == cfg.endpoints@[k].required
            &&& s.outcome == Outcome::Transient
            &&& s.error == Some("firewall update failed; previous policy retained"@)
            &&& forall|ip: Ipv4Addr| #[trigger]
                s.addrs.contains(ip) <==> i.production.contains_key(ip)
                    && i.production[ip].contains(name)
            &&& s.source == (if known {
                Source::LastKnownGood
            } else {
                Source::Missing
            })
            &&& i.added.len() == 0
            &&& i.removed.len() == 0
        }),
{
    law_failure_describes_the_kernel(cfg, results, replies, i);
    let fw = cfg.firewall;
    let name = names_of(cfg.endpoints@)[k];
    let p = chain_in_reply(fw.production_chain@, replies[0])->Ok_0;
    let rules = reread(fw.production_chain@, replies[replies.len() - 2], p);
    lemma_distinct_count(rules);
    lemma_addrs_of(i.production, name);
    let was = addrs_of(i.production, name);
    if was.len() > 0 {
        assert(was.contains(was[0]));
    } else {
        assert forall|ip: Ipv4Addr| !(i.production.contains_key(ip) && i.production[ip].contains(
            name,
        )) by {
            assert(!was.contains(ip));
        }
    }
}

// ---------------------------------------------------------------------------
// The sweep
// ---------------------------------------------------------------------------

/// When a deletion reports that nothing matched: one of its streams, whatever
/// else it holds and whatever the status is, holds the summary with a zero that
/// is not the end of a larger number.
pub proof fn law_no_match_is_reported(out: OutputView)
    ensures
        ({
            let zero = "0 flow entries have been deleted"@;
            reports_no_match(out) <==> exists|t: Seq<char>, i: int|
                (t == out.stderr || t == out.stdout) && 0 <= i && i + zero.len() <= t.len()
                    && #[trigger] t.subrange(i, i + zero.len()) == zero && (i == 0 || !('0' <= t[i
                    - 1] <= '9'))
        }),
{
    let zero = "0 flow entries have been deleted"@;
    lemma_zero_summary(out.stderr);
    lemma_zero_summary(out.stdout);
    if exists|t: Seq<char>, i: int|
        (t == out.stderr || t == out.stdout) && 0 <= i && i + zero.len() <= t.len()
            && #[trigger] t.subrange(i, i + zero.len()) == zero && (i == 0 || !('0' <= t[i - 1]
            <= '9')) {
        let (t, i) = choose|t: Seq<char>, i: int|
            (t == out.stderr || t == out.stdout) && 0 <= i && i + zero.len() <= t.len()
                && #[trigger] t.subrange(i, i + zero.len()) == zero && (i == 0 || !('0' <= t[i - 1]
                <= '9'));
        assert(zero_summary_at(t, i));
    }
}

/// When a deletion failed: the command could not be run, or it ended with a
/// status other than 0, unless that is 1 and one of its streams says that
/// nothing matched.
pub proof fn law_deletion_failure(out: OutputView, e: Seq<char>)
    ensures
        kill_failure(Err(e)) == Some(e),
        ({
            let zero = "0 flow entries have been deleted"@;
            let said = exists|t: Seq<char>, i: int|
                (t == out.stderr || t == out.stdout) && 0 <= i && i + zero.len() <= t.len()
                    && #[trigger] t.subrange(i, i + zero.len()) == zero && (i == 0 || !('0' <= t[i
                    - 1] <= '9'));
            let fine = out.status == 0 || (out.status == 1 && said);
            &&& fine ==> kill_failure(Ok(out)) is None
            &&& !fine ==> kill_failure(Ok(out)) == Some(
                "status "@ + signed_numeral(out.status) + ": "@ + trimmed(out.stderr),
            )
        }),
{
    let zero = "0 flow entries have been deleted"@;
    lemma_zero_summary(out.stderr);
    lemma_zero_summary(out.stdout);
    if exists|t: Seq<char>, i: int|
        (t == out.stderr || t == out.stdout) && 0 <= i && i + zero.len() <= t.len()
            && #[trigger] t.subrange(i, i + zero.len()) == zero && (i == 0 || !('0' <= t[i - 1]
            <= '9')) {
        let (t, i) = choose|t: Seq<char>, i: int|
            (t == out.stderr || t == out.stdout) && 0 <= i && i + zero.len() <= t.len()
                && #[trigger] t.subrange(i, i + zero.len()) == zero && (i == 0 || !('0' <= t[i - 1]
                <= '9'));
        assert(zero_summary_at(t, i));
    }
}

proof fn lemma_zero_summary(t: Seq<char>)
    ensures
        ({
            let zero = "0 flow entries have been deleted"@;
            holds_zero_summary(t) ==> exists|i: int|
                0 <= i && i + zero.len() <= t.len() && #[trigger] t.subrange(i, i + zero.len())
                    == zero && (i == 0 || !('0' <= t[i - 1] <= '9'))
        }),
{
    let zero = "0 flow entries have been deleted"@;
    if holds_zero_summary(t) {
        let i = choose|i: int| #[trigger] zero_summary_at(t, i);
        assert(t.subrange(i, i + zero.len()) == zero);
    }
}

/// One command per address, in the order of the addresses.
pub proof fn law_one_deletion_per_address(ips: Seq<Ipv4Addr>, k: int)
    requires
        0 <= k < ips.len(),
    ensures
        kill_calls(ips).len() == ips.len(),
        kill_calls(ips)[k] == (CallView {
            program: "/usr/sbin/conntrack"@,
            args: seq!["-D"@, "-d"@, addr_text(ips[k])],
            stdin: None,
        }),
{
}

/// A sweep counts every address once: the killed and the failed ones together
/// are all of them, each list in the order of the addresses, and each failure
/// has one error.
pub proof fn law_sweep_is_complete(ips: Seq<Ipv4Addr>, replies: Seq<Reply>)
    requires
        ascending(ips, addr_lt()),
    ensures
        ({
            let s = swept(ips, replies);
            &&& s.killed.len() + s.kill_failed.len() == ips.len()
            &&& ascending(s.killed, addr_lt())
            &&& ascending(s.kill_failed, addr_lt())
            &&& s.errors.len() == s.kill_failed.len()
        }),
{
    let s = swept(ips, replies);
    let failures = kill_failures(ips, replies);
    let failed = failed_addrs(failures);
    lemma_failures(ips, replies);
    lemma_failed_ascending(ips, replies);
    assert(ascending(failed, addr_lt()));
    let p = outside(failed);
    crate::order::lemma_ascending_filter(ips, addr_lt(), p);
    lemma_addr_order();
    lemma_split_count(ips, replies);
    assert(s.killed.len() + s.kill_failed.len() == ips.len());
    assert(ascending(s.killed, addr_lt()));
    assert(s.errors.len() == s.kill_failed.len());
}

/// Each failure of a sweep has its error, which tells the address and why its
/// command failed.
pub proof fn law_sweep_errors_tell_why(ips: Seq<Ipv4Addr>, replies: Seq<Reply>, j: int) -> (k: int)
    requires
        0 <= j < swept(ips, replies).kill_failed.len(),
    ensures
        0 <= k < ips.len(),
        swept(ips, replies).kill_failed[j] == ips[k],
        kill_failure(replies[k]) is Some,
        swept(ips, replies).errors[j] == "conntrack -D "@ + addr_text(ips[k]) + ": "@
            + kill_failure(replies[k])->0,
{
    let failures = kill_failures(ips, replies);
    lemma_failures(ips, replies);
    assert(swept(ips, replies).kill_failed[j] == failures[j].0);
    assert(swept(ips, replies).errors[j] == sweep_error(failures[j]));
    choose|k: int|
        0 <= k < ips.len() && ips[k] == failures[j].0 && #[trigger] kill_failure(replies[k]) == Some(
            failures[j].1,
        )
}

proof fn lemma_failures(ips: Seq<Ipv4Addr>, replies: Seq<Reply>)
    ensures
        forall|j: int|
            #![trigger kill_failures(ips, replies)[j]]
            0 <= j < kill_failures(ips, replies).len() ==> exists|k: int|
                0 <= k < ips.len() && ips[k] == kill_failures(ips, replies)[j].0
                    && #[trigger] kill_failure(replies[k]) == Some(
                    kill_failures(ips, replies)[j].1,
                ),
    decreases ips.len(),
{
    if ips.len() > 0 {
        let d = ips.drop_last();
        let n = ips.len() - 1;
        lemma_failures(d, replies);
        let head = kill_failures(d, replies);
        let all = kill_failures(ips, replies);
        assert forall|j: int| #![trigger all[j]] 0 <= j < all.len() implies exists|k: int|
            0 <= k < ips.len() && ips[k] == all[j].0 && #[trigger] kill_failure(replies[k]) == Some(
                all[j].1,
            ) by {
            if j < head.len() {
                assert(all[j] == head[j]);
                let k = choose|k: int|
                    0 <= k < d.len() && d[k] == head[j].0 && #[trigger] kill_failure(replies[k])
                        == Some(head[j].1);
                assert(ips[k] == all[j].0 && kill_failure(replies[k]) == Some(all[j].1));
            } else {
                assert(ips[n] == all[j].0 && kill_failure(replies[n]) == Some(all[j].1));
            }
        }
    }
}

proof fn lemma_failed_ascending(ips: Seq<Ipv4Addr>, replies: Seq<Reply>)
    requires
        ascending(ips, addr_lt()),
    ensures
        ascending(failed_addrs(kill_failures(ips, replies)), addr_lt()),
    decreases ips.len(),
{
    if ips.len() > 0 {
        let d = ips.drop_last();
        assert forall|i: int, j: int| 0 <= i < j < d.len() implies #[trigger] addr_lt()(
            d[i],
            d[j],
        ) by {
            assert(addr_lt()(ips[i], ips[j]));
        }
        lemma_failed_ascending(d, replies);
        lemma_failures(d, replies);
        let head = kill_failures(d, replies);
        let all = kill_failures(ips, replies);
        let list = failed_addrs(all);
        assert forall|i: int, j: int| 0 <= i < j < list.len() implies #[trigger] addr_lt()(
            list[i],
            list[j],
        ) by {
            if j < head.len() {
                assert(addr_lt()(failed_addrs(head)[i], failed_addrs(head)[j]));
            } else {
                assert(all[i] == head[i]);
                let k = choose|k: int|
                    0 <= k < d.len() && d[k] == head[i].0 && #[trigger] kill_failure(replies[k])
                        == Some(head[i].1);
                assert(addr_lt()(ips[k], ips[ips.len() - 1]));
            }
        }
    }
}

/// The failed addresses and the others make up all of them.
proof fn lemma_split_count(ips: Seq<Ipv4Addr>, replies: Seq<Reply>)
    requires
        ascending(ips, addr_lt()),
    ensures
        ips.filter(outside(failed_addrs(kill_failures(ips, replies)))).len() + kill_failures(
            ips,
            replies,
        ).len() == ips.len(),
{
    let failed = failed_addrs(kill_failures(ips, replies));
    let good = ips.filter(outside(failed));
    lemma_addr_order();
    crate::order::lemma_ascending_filter(ips, addr_lt(), outside(failed));
    crate::order::lemma_ascending_distinct(good, addr_lt());
    lemma_failed_ascending(ips, replies);
    crate::order::lemma_ascending_distinct(failed, addr_lt());
    crate::order::lemma_ascending_distinct(ips, addr_lt());
    lemma_failures(ips, replies);
    let (a, b) = (good.to_set(), failed.to_set());
    assert forall|ip: Ipv4Addr| ips.to_set().contains(ip) <==> a.union(b).contains(ip) by {
        if ips.contains(ip) && !failed.contains(ip) {
            let i = choose|i: int| 0 <= i < ips.len() && ips[i] == ip;
            assert(outside(failed)(ips[i]));
            ips.lemma_filter_contains(outside(failed), i);
        }
        if good.contains(ip) {
            ips.lemma_filter_contains_rev(outside(failed), ip);
        }
        if failed.contains(ip) {
            let j = choose|j: int| 0 <= j < failed.len() && failed[j] == ip;
            assert(kill_failures(ips, replies)[j].0 == ip);
        }
    }
    assert(ips.to_set() =~= a.union(b));
    assert forall|ip: Ipv4Addr| !(a.contains(ip) && b.contains(ip)) by {
        if good.contains(ip) {
            let j = choose|j: int| 0 <= j < good.len() && good[j] == ip;
            ips.lemma_filter_pred(outside(failed), j);
        }
    }
    assert(a.disjoint(b));
    vstd::set_lib::lemma_set_disjoint_lens(a, b);
}

// ---------------------------------------------------------------------------
// The status
// ---------------------------------------------------------------------------

/// What the flags of a status mean. A required endpoint is satisfied if it has
/// an address; all of them must be, the chains must hold the plan and the hosts
/// file must have been written. They are fresh if each of them has an answer of
/// this run, positive or negative.
pub proof fn law_status_flags(
    boot_id: Seq<char>,
    generated: Secs,
    prev: PrevStatus,
    loaded: LoadedAnswers,
    i: InstalledView,
    hosts_path: Seq<char>,
    written: Result<(), String>,
    mode: Seq<char>,
    sweep: SweptView,
)
    ensures
        ({
            let s = status_of(
                boot_id,
                generated,
                prev,
                loaded,
                i,
                hosts_path,
                written,
                mode,
                sweep,
            );
            &&& s.apply_ok == i.apply_ok
            &&& s.hosts_ok <==> written is Ok
            &&& s.conntrack_ok <==> sweep.kill_failed.len() == 0
            &&& s.required_satisfied <==> {
                &&& i.apply_ok
                &&& written is Ok
                &&& forall|k: int|
                    0 <= k < i.names.len() && (#[trigger] i.names[k]).required
                        ==> i.names[k].addrs.len() > 0
            }
            &&& s.required_fresh <==> {
                &&& i.apply_ok
                &&& forall|k: int|
                    0 <= k < i.names.len() && (#[trigger] i.names[k]).required
                        ==> i.names[k].source == Source::Fresh || i.names[k].source
                        == Source::Empty
            }
        }),
{
}

/// What a status passes on: who ran, when, in which mode and with which
/// answers; what is installed, what changed and what was deleted.
pub proof fn law_status_passes_on(
    boot_id: Seq<char>,
    generated: Secs,
    prev: PrevStatus,
    loaded: LoadedAnswers,
    i: InstalledView,
    hosts_path: Seq<char>,
    written: Result<(), String>,
    mode: Seq<char>,
    sweep: SweptView,
    pk: Seq<Ipv4Addr>,
    mk: Seq<Ipv4Addr>,
)
    requires
        ascending(pk, addr_lt()),
        pk.to_set() == i.production.dom(),
        ascending(mk, addr_lt()),
        mk.to_set() == i.maintenance.dom(),
    ensures
        ({
            let s = status_of(
                boot_id,
                generated,
                prev,
                loaded,
                i,
                hosts_path,
                written,
                mode,
                sweep,
            );
            &&& s.schema == 2
            &&& s.boot_id == boot_id
            &&& s.generated == generated
            &&& s.answers == loaded.uptime
            &&& s.applied == (if loaded.uptime is Some {
                loaded.uptime
            } else {
                prev.applied_answers_uptime_secs
            })
            &&& s.mode == mode
            &&& s.endpoints == i.names
            &&& s.production == pk
            &&& s.maintenance == mk
            &&& s.added == i.added
            &&& s.removed == i.removed
            &&& s.killed == sweep.killed
            &&& s.kill_failed == sweep.kill_failed
        }),
{
    lemma_addr_order();
    lemma_in_order(pk, addr_lt());
    lemma_in_order(mk, addr_lt());
}

/// Every error of a run is in its status, and nothing else: what was wrong with
/// the answers, what the firewall step recorded, that the hosts file could not
/// be written, and every deletion that failed; in this order.
pub proof fn law_status_tells_every_error(
    boot_id: Seq<char>,
    generated: Secs,
    prev: PrevStatus,
    loaded: LoadedAnswers,
    i: InstalledView,
    hosts_path: Seq<char>,
    written: Result<(), String>,
    mode: Seq<char>,
    sweep: SweptView,
)
    ensures
        ({
            let s = status_of(
                boot_id,
                generated,
                prev,
                loaded,
                i,
                hosts_path,
                written,
                mode,
                sweep,
            );
            let first = if loaded.error is Some {
                seq![loaded.error->0@]
            } else {
                Seq::empty()
            };
            let third = if written is Err {
                seq!["writing "@ + hosts_path + ": "@ + written->Err_0@]
            } else {
                Seq::empty()
            };
            s.errors == first + i.errors + third + sweep.errors
        }),
{
}

/// When each endpoint was last fresh: now, if its state comes from an answer of
/// this run; what was known before, if it is still configured; and nothing for
/// a name that no longer is.
pub proof fn law_last_fresh_times(
    prev: crate::fresh::Times,
    names: Seq<StateView>,
    now: Secs,
    name: Seq<char>,
)
    ensures
        ({
            let next = carried_times(prev, names, now);
            let known = exists|k: int| 0 <= k < names.len() && (#[trigger] names[k]).name == name;
            let fresh = exists|k: int|
                0 <= k < names.len() && (#[trigger] names[k]).name == name && (names[k].source
                    == Source::Fresh || names[k].source == Source::Empty);
            &&& fresh ==> next.contains_key(name) && next[name] == now
            &&& !fresh && known ==> (next.contains_key(name) <==> prev.contains_key(name))
            &&& !fresh && known && prev.contains_key(name) ==> next[name] == prev[name]
            &&& !known ==> !next.contains_key(name)
        }),
{
    if exists|k: int|
        0 <= k < names.len() && (#[trigger] names[k]).name == name && (names[k].source
            == Source::Fresh || names[k].source == Source::Empty) {
        let k = choose|k: int|
            0 <= k < names.len() && (#[trigger] names[k]).name == name && (names[k].source
                == Source::Fresh || names[k].source == Source::Empty);
        assert(names[k].name == name && crate::plan::from_answer(names[k].source));
    }
}

} // verus!
