//! What the contents of a value are: field by field and element by element.

use vstd::prelude::*;

use crate::addr::{addr_text, addr_texts, Ipv4Addr};
use crate::addr_map::{add_names, AddrNames};
use crate::answers::{results_of, NameResult};
use crate::apply::{installed_result, Installed, InstalledView, Swept};
use crate::batch::{lemma_lists_names, lists_names};
use crate::cli::{arguments_view, Opts, OptsView};
use crate::config::{names_of, normalized, Endpoint};
use crate::conntrack::failures_of;
use crate::dns::{
    labels_of, parsed_name, records_of, DataView, DnsName, DnsNameView, Record, RecordData,
    Response,
};
use crate::exec::{call_of, calls_in, replies_in, reply_of, since, Exchange, Output, OutputView};
use crate::fake::Call;
use crate::fresh::{listed_times, stamps, Times};
use crate::iptables::{chain_result, rules_of, unit_result, ChainRead, ChainView, RuleEntry};
use crate::plan::{from_answer, states_of, NameState, Plan, Source};
use crate::resolve::{
    opt_result, opt_results, question_view, settled_view, Classified, ClassifiedView, Resolution,
};
use crate::secs::Secs;
use crate::status::{ShownTimes, Status};
use crate::text::{opt_text, texts};

verus! {

/// The contents of lists, element by element.
pub proof fn law_contents_of_lists(
    a: Seq<String>,
    b: Seq<NameState>,
    c: Seq<RuleEntry>,
    d: Seq<NameResult>,
    e: Seq<Record>,
    f: Seq<Vec<u8>>,
    g: Seq<(Ipv4Addr, String)>,
    h: Seq<(String, Secs)>,
    i: int,
)
    ensures
        texts(a).len() == a.len(),
        states_of(b).len() == b.len(),
        rules_of(c).len() == c.len(),
        results_of(d).len() == d.len(),
        records_of(e).len() == e.len(),
        labels_of(f).len() == f.len(),
        failures_of(g).len() == g.len(),
        stamps(h).len() == h.len(),
        0 <= i < a.len() ==> texts(a)[i] == a[i]@,
        0 <= i < b.len() ==> states_of(b)[i] == b[i]@,
        0 <= i < c.len() ==> rules_of(c)[i] == (c[i].ip, c[i].names@),
        0 <= i < d.len() ==> results_of(d)[i] == d[i]@,
        0 <= i < e.len() ==> records_of(e)[i] == e[i]@,
        0 <= i < f.len() ==> labels_of(f)[i] == f[i]@,
        0 <= i < g.len() ==> failures_of(g)[i] == (g[i].0, g[i].1@),
        0 <= i < h.len() ==> stamps(h)[i] == (h[i].0@, h[i].1),
{
}

/// The names of the endpoints are the normalized ones, in order, and the texts
/// of addresses stand in the order of the addresses.
pub proof fn law_contents_of_names(e: Seq<Endpoint>, a: Seq<Ipv4Addr>, i: int)
    ensures
        names_of(e).len() == e.len(),
        0 <= i < e.len() ==> names_of(e)[i] == normalized(e[i].name@),
        addr_texts(a).len() == a.len(),
        0 <= i < a.len() ==> addr_texts(a)[i] == addr_text(a[i]),
{
}

/// Times are listed by name in ascending order, each with the time of its name.
pub proof fn law_contents_of_times(m: Times, keys: Seq<Seq<char>>, i: int)
    requires
        lists_names(keys, m.dom()),
    ensures
        listed_times(m).len() == keys.len(),
        0 <= i < keys.len() ==> listed_times(m)[i] == (keys[i], m[keys[i]]),
{
    lemma_lists_names(keys, m.dom());
}

/// The contents of states, results, plans and chains.
pub proof fn law_contents_of_plans(s: NameState, r: NameResult, p: Plan, c: ChainRead)
    ensures
        s@.name == s.name@,
        s@.required == s.required,
        s@.outcome == s.outcome,
        s@.source == s.source,
        s@.addrs == s.addrs@,
        s@.error == opt_text(s.error),
        r@.name == r.name@,
        r@.outcome == r.outcome,
        r@.addrs == r.addrs@,
        r@.min_ttl == r.min_ttl,
        r@.server == opt_text(r.server),
        r@.error == opt_text(r.error),
        p@.names == states_of(p.names@),
        p@.production == p.production@,
        p@.maintenance == p.maintenance@,
        p@.added == p.added@,
        p@.removed == p.removed@,
        p@.error == opt_text(p.error),
        c@.rules == rules_of(c.entries@),
        c@.rule_lines == c.rule_lines,
{
}

/// The contents of what a pass leaves: the installed policy, the sweep and the
/// status.
pub proof fn law_contents_of_passes(i: Installed, w: Swept, s: Status, t: ShownTimes)
    ensures
        i@.dirty == i.dirty,
        i@.rewritten == i.rewritten,
        i@.apply_ok == i.apply_ok,
        i@.names == states_of(i.names@),
        i@.production == i.production@,
        i@.maintenance == i.maintenance@,
        i@.added == i.added@,
        i@.removed == i.removed@,
        i@.errors == texts(i.errors@),
        w@.killed == w.killed@,
        w@.kill_failed == w.kill_failed@,
        w@.errors == texts(w.errors@),
        s@.schema == s.schema,
        s@.boot_id == s.boot_id@,
        s@.generated == s.generated_uptime_secs,
        s@.answers == s.answers_uptime_secs,
        s@.applied == s.applied_answers_uptime_secs,
        s@.mode == s.mode@,
        s@.apply_ok == s.apply_ok,
        s@.hosts_ok == s.hosts_ok,
        s@.conntrack_ok == s.conntrack_ok,
        s@.required_satisfied == s.required_satisfied,
        s@.required_fresh == s.required_fresh,
        s@.last_fresh == s.last_fresh_uptime_secs@,
        s@.endpoints == states_of(s.endpoints@),
        s@.production == s.production@,
        s@.maintenance == s.maintenance@,
        s@.added == s.added@,
        s@.removed == s.removed@,
        s@.killed == s.killed@,
        s@.kill_failed == s.kill_failed@,
        s@.errors == texts(s.errors@),
        t@.generated == t.generated@,
        t@.ages == texts(t.ages@),
{
}

/// The contents of names, records and responses.
pub proof fn law_contents_of_responses(n: DnsName, r: Record, d: RecordData, m: Response)
    ensures
        n@.labels == labels_of(n.labels@),
        n@.fqdn == n.fqdn,
        r@.name == r.name@,
        r@.ttl == r.ttl,
        r@.data == r.data@,
        d matches RecordData::A(ip) ==> d@ == DataView::A(ip),
        d matches RecordData::Cname(t) ==> d@ == DataView::Cname(t@),
        d is Other ==> d@ is Other,
        m@.truncated == m.truncated,
        m@.authentic == m.authentic,
        m@.rcode == m.rcode,
        m@.answers == records_of(m.answers@),
{
}

/// The contents of verdicts, and of a resolve run.
pub proof fn law_contents_of_verdicts(
    c: Classified,
    v: Resolution,
    o: Option<NameResult>,
    i: int,
)
    ensures
        c matches Classified::Resolved { addrs, min_ttl } ==> c@ == (ClassifiedView::Resolved {
            addrs: addrs@,
            min_ttl,
        }),
        c matches Classified::Empty(reason) ==> c@ == ClassifiedView::Empty(reason@),
        c matches Classified::Transient { reason, retry } ==> c@ == (ClassifiedView::Transient {
            reason: reason@,
            retry,
        }),
        v@.names == texts(v.names@),
        v@.errors == texts(v.last_error@),
        v@.results.len() == v.results@.len(),
        0 <= i < v.results@.len() ==> (v@.results[i] is None <==> v.results@[i] is None),
        0 <= i < v.results@.len() ==> (v.results@[i] matches Some(r) ==> v@.results[i] == Some(r@)),
        opt_results(v.results@) == v@.results,
        o matches Some(r) ==> opt_result(o) == Some(r@),
        o is None ==> opt_result(o) is None,
{
}

/// The contents of options, outputs and calls.
pub proof fn law_contents_of_commands(
    o: Opts,
    out: Output,
    call: Call,
    program: &str,
    args: &[&str],
    stdin: Option<&str>,
)
    ensures
        o@.config == o.config@,
        o@.answers == o.answers@,
        o@.hosts == o.hosts@,
        o@.status == o.status@,
        o@.metrics == o.metrics@,
        o@.state_file == o.state_file@,
        o@.lock == o.lock@,
        o@.lock_timeout == o.lock_timeout,
        out@.status == out.status,
        out@.stdout == out.stdout@,
        out@.stderr == out.stderr@,
        call@.program == call.program@,
        call@.args == texts(call.args@),
        call@.stdin == opt_text(call.stdin),
        call_of(program, args, stdin).program == program@,
        call_of(program, args, stdin).args.len() == args@.len(),
        forall|i: int|
            0 <= i < args@.len() ==> #[trigger] call_of(program, args, stdin).args[i] == args@[i]@,
        stdin matches Some(s) ==> call_of(program, args, stdin).stdin == Some(s@),
        stdin is None ==> call_of(program, args, stdin).stdin is None,
{
}

/// The contents of results: a success passes its contents on, a failure its
/// text.
pub proof fn law_contents_of_results(
    e: String,
    out: Output,
    c: ChainRead,
    i: Installed,
    n: DnsName,
    f: Classified,
    r: NameResult,
    a: (String, Opts),
)
    ensures
        opt_text(Some(e)) == Some(e@),
        opt_text(None) is None,
        reply_of(Ok(out)) == Ok::<OutputView, Seq<char>>(out@),
        reply_of(Err(e)) == Err::<OutputView, Seq<char>>(e@),
        chain_result(Ok(c)) == Ok::<ChainView, Seq<char>>(c@),
        chain_result(Err(e)) == Err::<ChainView, Seq<char>>(e@),
        unit_result(Ok(())) is Ok,
        unit_result(Err(e)) == Err::<(), Seq<char>>(e@),
        installed_result(Ok(i)) == Ok::<InstalledView, Seq<char>>(i@),
        installed_result(Err(e)) == Err::<InstalledView, Seq<char>>(e@),
        parsed_name(Ok(n)) == Ok::<DnsNameView, Seq<char>>(n@),
        parsed_name(Err(e)) == Err::<DnsNameView, Seq<char>>(e@),
        question_view(Ok(n)) == Ok::<DnsNameView, ClassifiedView>(n@),
        question_view(Err(f)) == Err::<DnsNameView, ClassifiedView>(f@),
        settled_view(Ok(r)) matches Ok(x) && x == r@,
        settled_view(Err(e)) matches Err(x) && x == e@,
        arguments_view(Ok(a)) == Ok::<(Seq<char>, OptsView), Seq<char>>((a.0@, a.1@)),
        arguments_view(Err(e)) == Err::<(Seq<char>, OptsView), Seq<char>>(e@),
{
}

/// What happened since: the exchanges that were added, in order, each with its
/// command and its reply.
pub proof fn law_contents_of_logs(before: Seq<Exchange>, more: Seq<Exchange>, i: int)
    requires
        0 <= i < more.len(),
    ensures
        since(before, before + more) == more,
        calls_in(more).len() == more.len(),
        replies_in(more).len() == more.len(),
        calls_in(more)[i] == more[i].call,
        replies_in(more)[i] == more[i].reply,
{
    assert(since(before, before + more) =~= more);
}

/// Names are added to an address and never taken away; other addresses keep
/// theirs.
pub proof fn law_adding_names(
    m: AddrNames,
    ip: Ipv4Addr,
    names: Set<Seq<char>>,
    x: Ipv4Addr,
    n: Seq<char>,
)
    ensures
        add_names(m, ip, names).contains_key(x) <==> m.contains_key(x) || x == ip,
        x != ip && m.contains_key(x) ==> add_names(m, ip, names)[x] == m[x],
        add_names(m, ip, names)[ip].contains(n) <==> names.contains(n) || (m.contains_key(ip)
            && m[ip].contains(n)),
{
}

/// Positive and negative answers of this run count as fresh, and nothing else.
pub proof fn law_fresh_sources(s: Source)
    ensures
        from_answer(s) <==> s == Source::Fresh || s == Source::Empty,
{
}

} // verus!
