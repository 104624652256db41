//! The command line: its options, its commands and what it reports.

use vstd::prelude::*;
use crate::addr::addr_texts;
use crate::answers::{Answers, NameResult, Outcome};
use crate::config::{Config, DEFAULT_CONFIG_PATH};
use crate::number::{number_text, numeral, parse_u64, u64_value};
use crate::status::Status;
use crate::text::{debug_form, joined, quoted, same_text, starts_with, texts};

verus! {

pub const USAGE: &'static str = "usage: egress-resolver <command> [options]\n\ncommands:\n  resolve        resolve configured names over DNS-over-TLS, write answers file\n  apply          reconcile firewall chains, hosts file and conntrack from answers\n  run            resolve, then apply (for manual use)\n  check-config   validate the configuration file and print a summary\n  print-servers  print the configured resolver addresses, comma-separated\n\noptions (defaults in brackets):\n  --config PATH        [/etc/bob/egress-resolver.toml]\n  --answers PATH       [/run/egress-resolver/resolve/answers.json]\n  --hosts PATH         [/run/flashbox-endpoints/hosts]\n  --status PATH        [/run/egress-resolver/status.json]\n  --metrics PATH       [/run/egress-resolver/metrics/egress-resolver.prom]\n  --state-file PATH    [/etc/searcher-network.state]\n  --lock PATH          [/etc/searcher-network.lock]\n  --lock-timeout SECS  [30]\n";

/// The options: the paths of all files, and for how many seconds to wait for
/// the lock.
#[derive(Debug, Clone, PartialEq, Eq)]
pub struct Opts {
    pub config: String,
    pub answers: String,
    pub hosts: String,
    pub status: String,
    pub metrics: String,
    pub state_file: String,
    pub lock: String,
    pub lock_timeout: u64,
}

/// The contents of an [`Opts`].
pub struct OptsView {
    pub config: Seq<char>,
    pub answers: Seq<char>,
    pub hosts: Seq<char>,
    pub status: Seq<char>,
    pub metrics: Seq<char>,
    pub state_file: Seq<char>,
    pub lock: Seq<char>,
    pub lock_timeout: u64,
}

impl View for Opts {
    type V = OptsView;

    open spec fn view(&self) -> OptsView {
        OptsView {
            config: self.config@,
            answers: self.answers@,
            hosts: self.hosts@,
            status: self.status@,
            metrics: self.metrics@,
            state_file: self.state_file@,
            lock: self.lock@,
            lock_timeout: self.lock_timeout,
        }
    }
}

/// What holds without any option.
pub open spec fn default_opts() -> OptsView {
    OptsView {
        config: DEFAULT_CONFIG_PATH@,
        answers: "/run/egress-resolver/resolve/answers.json"@,
        hosts: "/run/flashbox-endpoints/hosts"@,
        status: "/run/egress-resolver/status.json"@,
        metrics: "/run/egress-resolver/metrics/egress-resolver.prom"@,
        state_file: "/etc/searcher-network.state"@,
        lock: "/etc/searcher-network.lock"@,
        lock_timeout: 30,
    }
}

impl Default for Opts {
    fn default() -> (r: Opts)
        ensures
            r@ == default_opts(),
    {
        Opts {
            config: DEFAULT_CONFIG_PATH.to_owned(),
            answers: "/run/egress-resolver/resolve/answers.json".to_owned(),
            hosts: "/run/flashbox-endpoints/hosts".to_owned(),
            status: "/run/egress-resolver/status.json".to_owned(),
            metrics: "/run/egress-resolver/metrics/egress-resolver.prom".to_owned(),
            state_file: "/etc/searcher-network.state".to_owned(),
            lock: "/etc/searcher-network.lock".to_owned(),
            lock_timeout: 30,
        }
    }
}

// ---------------------------------------------------------------------------
// Arguments
// ---------------------------------------------------------------------------

/// The option is followed by a value.
pub open spec fn takes_value(a: Seq<char>) -> bool {
    ||| a == "--config"@
    ||| a == "--answers"@
    ||| a == "--hosts"@
    ||| a == "--status"@
    ||| a == "--metrics"@
    ||| a == "--state-file"@
    ||| a == "--lock"@
    ||| a == "--lock-timeout"@
}

/// The options with `a` set to `v`.
pub open spec fn with_option(o: OptsView, a: Seq<char>, v: Seq<char>) -> Result<
    OptsView,
    Seq<char>,
> {
    if a == "--config"@ {
        Ok(OptsView { config: v, ..o })
    } else if a == "--answers"@ {
        Ok(OptsView { answers: v, ..o })
    } else if a == "--hosts"@ {
        Ok(OptsView { hosts: v, ..o })
    } else if a == "--status"@ {
        Ok(OptsView { status: v, ..o })
    } else if a == "--metrics"@ {
        Ok(OptsView { metrics: v, ..o })
    } else if a == "--state-file"@ {
        Ok(OptsView { state_file: v, ..o })
    } else if a == "--lock"@ {
        Ok(OptsView { lock: v, ..o })
    } else {
        match u64_value(v) {
            Some(secs) => Ok(OptsView { lock_timeout: secs, ..o }),
            None => Err("bad --lock-timeout "@ + debug_form(v)),
        }
    }
}

/// A complaint, followed by the usage text.
pub open spec fn with_usage(complaint: Seq<char>) -> Seq<char> {
    complaint + "\n\n"@ + USAGE@
}

/// What the arguments from `i` on come to, with the command and the options
/// found so far.
pub open spec fn arguments(
    args: Seq<Seq<char>>,
    i: int,
    command: Option<Seq<char>>,
    o: OptsView,
) -> Result<(Seq<char>, OptsView), Seq<char>>
    decreases args.len() - i,
{
    if i >= args.len() {
        match command {
            Some(c) => Ok((c, o)),
            None => Err(USAGE@),
        }
    } else {
        let a = args[i];
        if takes_value(a) {
            if i + 1 >= args.len() {
                Err(a + " needs a value"@)
            } else {
                match with_option(o, a, args[i + 1]) {
                    Ok(o2) => arguments(args, i + 2, command, o2),
                    Err(e) => Err(e),
                }
            }
        } else if a == "-h"@ || a == "--help"@ {
            Err(USAGE@)
        } else if "-"@.is_prefix_of(a) {
            Err(with_usage("unknown option "@ + a))
        } else if command is Some {
            Err(with_usage("unexpected argument "@ + a))
        } else {
            arguments(args, i + 1, Some(a), o)
        }
    }
}

/// The contents of what [`parse_args`] returns.
pub open spec fn arguments_view(r: Result<(String, Opts), String>) -> Result<
    (Seq<char>, OptsView),
    Seq<char>,
> {
    match r {
        Ok(v) => Ok((v.0@, v.1@)),
        Err(e) => Err(e@),
    }
}

fn takes_a_value(a: &str) -> (r: bool)
    ensures
        r == takes_value(a@),
{
    same_text(a, "--config") || same_text(a, "--answers") || same_text(a, "--hosts") || same_text(
        a,
        "--status",
    ) || same_text(a, "--metrics") || same_text(a, "--state-file") || same_text(a, "--lock")
        || same_text(a, "--lock-timeout")
}

fn complain(what: &str, a: &str) -> (r: String)
    ensures
        r@ == with_usage(what@ + a@),
{
    let mut s = what.to_owned();
    s.append(a);
    s.append("\n\n");
    s.append(USAGE);
    s
}

fn set_option(o: Opts, a: &str, v: &str) -> (r: Result<Opts, String>)
    ensures
        r is Ok <==> with_option(o@, a@, v@) is Ok,
        r matches Ok(x) ==> with_option(o@, a@, v@) == Ok::<OptsView, Seq<char>>(x@),
        r matches Err(e) ==> with_option(o@, a@, v@) == Err::<OptsView, Seq<char>>(e@),
{
    let mut o = o;
    if same_text(a, "--config") {
        o.config = v.to_owned();
    } else if same_text(a, "--answers") {
        o.answers = v.to_owned();
    } else if same_text(a, "--hosts") {
        o.hosts = v.to_owned();
    } else if same_text(a, "--status") {
        o.status = v.to_owned();
    } else if same_text(a, "--metrics") {
        o.metrics = v.to_owned();
    } else if same_text(a, "--state-file") {
        o.state_file = v.to_owned();
    } else if same_text(a, "--lock") {
        o.lock = v.to_owned();
    } else {
        match parse_u64(v) {
            Some(secs) => {
                o.lock_timeout = secs;
            },
            None => {
                let mut s = "bad --lock-timeout ".to_owned();
                s.append(quoted(v).as_str());
                return Err(s);
            },
        }
    }
    Ok(o)
}

/// Reads the command and the options.
pub fn parse_args(args: &[String]) -> (r: Result<(String, Opts), String>)
    ensures
        arguments_view(r) == arguments(texts(args@), 0, None, default_opts()),
{
    let ghost all = texts(args@);
    let mut opts = Opts::default();
    let mut command: Option<String> = None;
    let mut i: usize = 0;
    while i < args.len()
        invariant
            i <= args@.len(),
            all == texts(args@),
            arguments(all, 0, None, default_opts()) == arguments(
                all,
                i as int,
                match command {
                    Some(c) => Some(c@),
                    None => None,
                },
                opts@,
            ),
        decreases args@.len() - i,
    {
        let a = args[i].as_str();
        assert(all[i as int] == a@);
        if takes_a_value(a) {
            if i + 1 >= args.len() {
                let mut s = a.to_owned();
                s.append(" needs a value");
                return Err(s);
            }
            let v = args[i + 1].as_str();
            assert(all[i + 1] == v@);
            match set_option(opts, a, v) {
                Ok(o) => {
                    opts = o;
                },
                Err(e) => {
                    return Err(e);
                },
            }
            i += 2;
        } else {
            if same_text(a, "-h") || same_text(a, "--help") {
                return Err(USAGE.to_owned());
            }
            if starts_with(a, "-") {
                return Err(complain("unknown option ", a));
            }
            if command.is_some() {
                return Err(complain("unexpected argument ", a));
            }
            command = Some(a.to_owned());
            i += 1;
        }
    }
    match command {
        Some(c) => Ok((c, opts)),
        None => Err(USAGE.to_owned()),
    }
}

// ---------------------------------------------------------------------------
// Commands
// ---------------------------------------------------------------------------

/// What can be asked for.
#[derive(Debug, Clone, Copy, PartialEq, Eq, Structural)]
pub enum Command {
    Resolve,
    Apply,
    /// Resolve, then apply.
    Run,
    CheckConfig,
    PrintServers,
}

/// The command of a name.
pub open spec fn command_named(name: Seq<char>) -> Option<Command> {
    if name == "resolve"@ {
        Some(Command::Resolve)
    } else if name == "apply"@ {
        Some(Command::Apply)
    } else if name == "run"@ {
        Some(Command::Run)
    } else if name == "check-config"@ {
        Some(Command::CheckConfig)
    } else if name == "print-servers"@ {
        Some(Command::PrintServers)
    } else {
        None
    }
}

/// The command of a name.
pub fn find_command(name: &str) -> (r: Result<Command, String>)
    ensures
        r matches Ok(c) ==> command_named(name@) == Some(c),
        r matches Err(e) ==> command_named(name@) is None && e@ == with_usage(
            "unknown command "@ + name@,
        ),
{
    if same_text(name, "resolve") {
        Ok(Command::Resolve)
    } else if same_text(name, "apply") {
        Ok(Command::Apply)
    } else if same_text(name, "run") {
        Ok(Command::Run)
    } else if same_text(name, "check-config") {
        Ok(Command::CheckConfig)
    } else if same_text(name, "print-servers") {
        Ok(Command::PrintServers)
    } else {
        Err(complain("unknown command ", name))
    }
}

// ---------------------------------------------------------------------------
// Reports
// ---------------------------------------------------------------------------

/// One line about a valid configuration.
pub open spec fn config_summary(c: Config) -> Seq<char> {
    "ok: "@ + numeral(c.endpoints@.len()) + " endpoint(s), "@ + numeral(c.static_hosts@.len())
        + " static host(s), resolvers "@ + joined(addr_texts(c.resolver.servers@), ","@)
        + " via "@ + c.resolver.server_name@ + ":"@ + numeral(c.resolver.port as nat)
        + " (deadline "@ + numeral(c.resolver.deadline_secs as nat) + "s), chains "@
        + c.firewall.production_chain@ + " / "@ + c.firewall.maintenance_chain@
}

/// One line about a valid configuration.
pub fn check_config_summary(c: &Config) -> (r: String)
    ensures
        r@ == config_summary(*c),
{
    let mut s = "ok: ".to_owned();
    s.append(number_text(c.endpoints.len() as u64).as_str());
    s.append(" endpoint(s), ");
    s.append(number_text(c.static_hosts.len() as u64).as_str());
    s.append(" static host(s), resolvers ");
    s.append(c.servers_csv().as_str());
    s.append(" via ");
    s.append(c.resolver.server_name.as_str());
    s.append(":");
    s.append(number_text(c.resolver.port as u64).as_str());
    s.append(" (deadline ");
    s.append(number_text(c.resolver.deadline_secs).as_str());
    s.append("s), chains ");
    s.append(c.firewall.production_chain.as_str());
    s.append(" / ");
    s.append(c.firewall.maintenance_chain.as_str());
    s
}

/// The number of names that were resolved.
pub open spec fn resolved_count(results: Seq<NameResult>) -> nat
    decreases results.len(),
{
    if results.len() == 0 {
        0
    } else {
        resolved_count(results.drop_last()) + (if results.last().outcome == Outcome::Resolved {
            1nat
        } else {
            0nat
        })
    }
}

/// One line about the answers that were written to `path`.
pub fn resolve_summary(answers: &Answers, path: &str) -> (r: String)
    ensures
        r@ == "resolved "@ + numeral(resolved_count(answers.results@)) + "/"@ + numeral(
            answers.results@.len(),
        ) + " name(s); answers written to "@ + path@,
{
    let ghost all = answers.results@;
    let mut ok: u64 = 0;
    let mut i: usize = 0;
    assert(all.take(0) =~= Seq::<NameResult>::empty());
    while i < answers.results.len()
        invariant
            i <= answers.results@.len(),
            all == answers.results@,
            ok == resolved_count(all.take(i as int)),
            ok <= i,
        decreases answers.results@.len() - i,
    {
        assert(all.take(i + 1).drop_last() == all.take(i as int));
        if answers.results[i].outcome == Outcome::Resolved {
            ok += 1;
        }
        i += 1;
    }
    assert(all.take(i as int) == all);
    let mut s = "resolved ".to_owned();
    s.append(number_text(ok).as_str());
    s.append("/");
    s.append(number_text(answers.results.len() as u64).as_str());
    s.append(" name(s); answers written to ");
    s.append(path);
    s
}

/// `true` or `false`.
pub open spec fn bool_form(b: bool) -> Seq<char> {
    if b {
        "true"@
    } else {
        "false"@
    }
}

fn bool_text(b: bool) -> (r: String)
    ensures
        r@ == bool_form(b),
{
    if b {
        "true".to_owned()
    } else {
        "false".to_owned()
    }
}

/// Succeeds if the whole reconciliation did; otherwise says which step failed.
pub fn apply_verdict(st: &Status) -> (r: Result<(), String>)
    ensures
        r is Ok <==> st.apply_ok && st.hosts_ok && st.conntrack_ok,
        r matches Err(e) ==> e@ == "reconciliation incomplete (apply_ok="@ + bool_form(st.apply_ok)
            + ", hosts_ok="@ + bool_form(st.hosts_ok) + ", conntrack_ok="@ + bool_form(
            st.conntrack_ok,
        ) + ")"@,
{
    if st.all_ok() {
        return Ok(());
    }
    let mut s = "reconciliation incomplete (apply_ok=".to_owned();
    s.append(bool_text(st.apply_ok).as_str());
    s.append(", hosts_ok=");
    s.append(bool_text(st.hosts_ok).as_str());
    s.append(", conntrack_ok=");
    s.append(bool_text(st.conntrack_ok).as_str());
    s.append(")");
    Err(s)
}

} // verus!
