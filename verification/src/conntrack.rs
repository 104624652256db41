//! Connection hygiene.
//!
//! The host firewall accepts ESTABLISHED flows before the mode chains are
//! consulted, so a flow that was allowed once survives any later rule change
//! until its conntrack entry is deleted. Instead of remembering diffs (which a
//! crash between "apply" and "kill" would lose), every run derives the set of
//! flows that must not exist from the *current* mode and chain contents and
//! deletes them. The operation is idempotent.

use vstd::prelude::*;

use crate::addr::{addr_text, Ipv4Addr};
use crate::addr_map::{AddrMap, AddrNames};
use crate::exec::{calls_in, replies_in, reply_of, since, CallView, Exec, Output, OutputView, Reply};
use crate::number::{is_digit, signed_numeral, signed_text};
use crate::order::{addr_lt, in_order, lemma_addr_order, lemma_ascending_filter, lemma_in_order};
use crate::text::{chars, matches_at, same_text, stands_at, trim, trimmed};

verus! {

pub const CONNTRACK: &'static str = "/usr/sbin/conntrack";

/// What `conntrack -D` prints when nothing matched.
pub const NO_MATCH_SUMMARY: &'static str = "0 flow entries have been deleted";

/// The addresses whose flows must not exist: the retired ones in production,
/// every known one in any other mode.
pub open spec fn doomed(mode: Seq<char>, production: AddrNames, maintenance: AddrNames) -> Seq<
    Ipv4Addr,
> {
    in_order(
        maintenance.dom().filter(
            |ip: Ipv4Addr| mode != "production"@ || !production.contains_key(ip),
        ),
        addr_lt(),
    )
}

/// Addresses whose flows must not exist right now.
///
/// * production: every address in the maintenance (seen) set that is not in
///   the production (allowed) set, i.e. retired addresses;
/// * any other mode: every address ever resolved.
pub fn kill_set(mode: &str, production: &AddrMap, maintenance: &AddrMap) -> (r: Vec<Ipv4Addr>)
    ensures
        r@ == doomed(mode@, production@, maintenance@),
{
    let in_production = same_text(mode, "production");
    let keys = maintenance.keys();
    let ghost p = |ip: Ipv4Addr| mode@ != "production"@ || !production@.contains_key(ip);
    let mut out: Vec<Ipv4Addr> = Vec::new();
    let mut i: usize = 0;
    assert(keys@.take(0).filter(p) =~= Seq::<Ipv4Addr>::empty()) by {
        reveal(Seq::filter);
    }
    while i < keys.len()
        invariant
            i <= keys@.len(),
            in_production == (mode@ == "production"@),
            p == (|ip: Ipv4Addr| mode@ != "production"@ || !production@.contains_key(ip)),
            out@ == keys@.take(i as int).filter(p),
        decreases keys@.len() - i,
    {
        proof {
            assert(keys@.take(i + 1) == keys@.take(i as int).push(keys@[i as int]));
            keys@.take(i as int).lemma_filter_push(keys@[i as int], p);
        }
        if !in_production || !production.contains_key(keys[i]) {
            out.push(keys[i]);
        }
        i += 1;
    }
    proof {
        assert(keys@.take(i as int) == keys@);
        lemma_addr_order();
        lemma_ascending_filter(keys@, addr_lt(), p);
        lemma_in_order(out@, addr_lt());
    }
    out
}

/// The command that deletes the flows to `ip`.
pub open spec fn kill_call(ip: Ipv4Addr) -> CallView {
    CallView { program: CONNTRACK@, args: seq!["-D"@, "-d"@, addr_text(ip)], stdin: None }
}

/// The commands that delete the flows to each of `ips`.
pub open spec fn kill_calls(ips: Seq<Ipv4Addr>) -> Seq<CallView> {
    ips.map_values(|ip: Ipv4Addr| kill_call(ip))
}

/// The summary of a deletion that matched nothing begins at position `i` of
/// `t`: its zero is a whole number, not the last digit of a larger one.
pub open spec fn zero_summary_at(t: Seq<char>, i: int) -> bool {
    stands_at(NO_MATCH_SUMMARY@, t, i) && (i == 0 || !is_digit(t[i - 1]))
}

/// Whether `t` holds the summary of a deletion that matched nothing.
pub open spec fn holds_zero_summary(t: Seq<char>) -> bool {
    exists|i: int| #[trigger] zero_summary_at(t, i)
}

/// Whether the tool's summary line, on either stream, reports that nothing was
/// deleted.
pub open spec fn reports_no_match(out: OutputView) -> bool {
    holds_zero_summary(out.stderr) || holds_zero_summary(out.stdout)
}

/// Why a deletion failed; `None` if it succeeded or nothing matched.
pub open spec fn kill_failure(reply: Reply) -> Option<Seq<char>> {
    match reply {
        Err(e) => Some(e),
        Ok(out) => if out.status == 0 || (out.status == 1 && reports_no_match(out)) {
            None
        } else {
            Some("status "@ + signed_numeral(out.status) + ": "@ + trimmed(out.stderr))
        },
    }
}

/// The addresses whose deletion failed, with the reasons.
pub open spec fn kill_failures(ips: Seq<Ipv4Addr>, replies: Seq<Reply>) -> Seq<
    (Ipv4Addr, Seq<char>),
>
    decreases ips.len(),
{
    if ips.len() == 0 {
        Seq::empty()
    } else {
        let head = kill_failures(ips.drop_last(), replies);
        match kill_failure(replies[ips.len() - 1]) {
            Some(e) => head.push((ips.last(), e)),
            None => head,
        }
    }
}

/// Only the replies to the commands themselves matter.
proof fn lemma_kill_failures_prefix(ips: Seq<Ipv4Addr>, a: Seq<Reply>, b: Seq<Reply>)
    requires
        ips.len() <= a.len(),
        ips.len() <= b.len(),
        forall|i: int| 0 <= i < ips.len() ==> #[trigger] a[i] == b[i],
    ensures
        kill_failures(ips, a) == kill_failures(ips, b),
    decreases ips.len(),
{
    if ips.len() > 0 {
        lemma_kill_failures_prefix(ips.drop_last(), a, b);
        assert(a[ips.len() - 1] == b[ips.len() - 1]);
    }
}

/// The contents of a list of failures.
pub open spec fn failures_of(v: Seq<(Ipv4Addr, String)>) -> Seq<(Ipv4Addr, Seq<char>)> {
    v.map_values(|f: (Ipv4Addr, String)| (f.0, f.1@))
}

/// Whether `t` holds the summary of a deletion that matched nothing.
fn find_zero_summary(t: &str) -> (r: bool)
    ensures
        r == holds_zero_summary(t@),
{
    let v = chars(t);
    let p = chars(NO_MATCH_SUMMARY);
    let mut at: usize = 0;
    loop
        invariant
            at <= v@.len(),
            v@ == t@,
            p@ == NO_MATCH_SUMMARY@,
            forall|i: int| 0 <= i < at ==> !#[trigger] zero_summary_at(t@, i),
        decreases v@.len() - at,
    {
        if matches_at(&v, at, &p) && (at == 0 || !('0' <= v[at - 1] && v[at - 1] <= '9')) {
            assert(zero_summary_at(t@, at as int));
            return true;
        }
        if at == v.len() {
            return false;
        }
        at += 1;
    }
}

/// True if the tool's summary line reports that nothing was deleted. The
/// summary goes to stderr; stdout is checked too in case that ever changes.
pub fn deleted_nothing(out: &Output) -> (r: bool)
    ensures
        r == reports_no_match(out@),
{
    find_zero_summary(out.stderr.as_str()) || find_zero_summary(out.stdout.as_str())
}

/// Why a deletion failed; `None` if it succeeded or nothing matched.
pub fn interpret_kill(reply: Result<Output, String>) -> (r: Option<String>)
    ensures
        r is Some <==> kill_failure(reply_of(reply)) is Some,
        r matches Some(e) ==> kill_failure(reply_of(reply)) == Some(e@),
{
    match reply {
        Err(e) => Some(e),
        Ok(out) => {
            if out.status == 0 || (out.status == 1 && deleted_nothing(&out)) {
                return None;
            }
            let mut s = "status ".to_owned();
            s.append(signed_text(out.status as i64).as_str());
            s.append(": ");
            s.append(trim(out.stderr.as_str()).as_str());
            Some(s)
        },
    }
}

/// Delete every conntrack entry whose destination is one of `ips`.
///
/// Destination-only, like `toggle`'s own teardown: the maintenance drop rules
/// are port-agnostic, so the sweep must be too. Returns the addresses whose
/// deletion command failed.
///
/// `conntrack -D` exits 1 both when nothing matched and on operational errors
/// (missing kernel support, netlink failures). Only the former is a success
/// here, so exit 1 is accepted solely when the tool printed its `0 flow
/// entries have been deleted` summary.
pub fn kill<E: Exec>(exec: &mut E, ips: &[Ipv4Addr]) -> (r: Vec<(Ipv4Addr, String)>)
    ensures
        old(exec).log().is_prefix_of(final(exec).log()),
        calls_in(since(old(exec).log(), final(exec).log())) == kill_calls(ips@),
        failures_of(r@) == kill_failures(
            ips@,
            replies_in(since(old(exec).log(), final(exec).log())),
        ),
{
    let ghost start = exec.log();
    let mut failed: Vec<(Ipv4Addr, String)> = Vec::new();
    let mut i: usize = 0;
    assert(calls_in(since(start, start)) =~= kill_calls(ips@.take(0)));
    assert(failures_of(failed@) =~= Seq::<(Ipv4Addr, Seq<char>)>::empty());
    while i < ips.len()
        invariant
            i <= ips@.len(),
            start == old(exec).log(),
            start.is_prefix_of(exec.log()),
            exec.log().len() == start.len() + i,
            calls_in(since(start, exec.log())) == kill_calls(ips@.take(i as int)),
            failures_of(failed@) == kill_failures(
                ips@.take(i as int),
                replies_in(since(start, exec.log())),
            ),
        decreases ips@.len() - i,
    {
        let dst = ips[i].text();
        let ghost before = exec.log();
        let reply = exec.run(CONNTRACK, &["-D", "-d", dst.as_str()], None);
        let ghost after = exec.log();
        proof {
            let was = replies_in(since(start, before));
            let now = replies_in(since(start, after));
            assert(after.last().call.args =~= kill_call(ips@[i as int]).args);
            assert(since(start, after) =~= since(start, before).push(after.last()));
            assert(ips@.take(i + 1) == ips@.take(i as int).push(ips@[i as int]));
            assert(after.last().call == kill_call(ips@[i as int]));
            assert(calls_in(since(start, after)) =~= calls_in(since(start, before)).push(
                after.last().call,
            ));
            assert(calls_in(since(start, after)) =~= kill_calls(ips@.take(i + 1)));
            assert(ips@.take(i + 1).drop_last() == ips@.take(i as int));
            assert(start.is_prefix_of(after));
            lemma_kill_failures_prefix(ips@.take(i as int), was, now);
            assert(now[i as int] == reply_of(reply));
        }
        match interpret_kill(reply) {
            Some(e) => {
                let ghost was = failures_of(failed@).push((ips@[i as int], e@));
                failed.push((ips[i], e));
                assert(failures_of(failed@) =~= was);
            },
            None => {},
        }
        i += 1;
    }
    assert(ips@.take(i as int) == ips@);
    failed
}

} // verus!
