//! What the command line means, and what is reported about it.

use vstd::prelude::*;

use crate::addr::addr_texts;
use crate::answers::{NameResult, Outcome};
use crate::basics::{all_blank, law_trimming};
use crate::cli::{
    arguments, bool_form, command_named, config_summary, default_opts, resolved_count, takes_value,
    with_option, with_usage, Command, OptsView, USAGE,
};
use crate::config::Config;
use crate::number::{numeral, u64_value};
use crate::sysutil::mode_of;
use crate::text::{debug_form, is_blank, joined};

verus! {

/// What a command line comes to.
pub open spec fn read(args: Seq<Seq<char>>, o: OptsView) -> Result<(Seq<char>, OptsView), Seq<char>> {
    arguments(args, 0, None, o)
}

// ---------------------------------------------------------------------------
// Options
// ---------------------------------------------------------------------------

/// The defaults.
pub proof fn law_defaults()
    ensures
        default_opts() == (OptsView {
            config: "/etc/bob/egress-resolver.toml"@,
            answers: "/run/egress-resolver/resolve/answers.json"@,
            hosts: "/run/flashbox-endpoints/hosts"@,
            status: "/run/egress-resolver/status.json"@,
            metrics: "/run/egress-resolver/metrics/egress-resolver.prom"@,
            state_file: "/etc/searcher-network.state"@,
            lock: "/etc/searcher-network.lock"@,
            lock_timeout: 30,
        }),
{
}

/// The usage text.
pub proof fn law_usage_text()
    ensures
        USAGE@ == "usage: egress-resolver <command> [options]\n\ncommands:\n  resolve        resolve configured names over DNS-over-TLS, write answers file\n  apply          reconcile firewall chains, hosts file and conntrack from answers\n  run            resolve, then apply (for manual use)\n  check-config   validate the configuration file and print a summary\n  print-servers  print the configured resolver addresses, comma-separated\n\noptions (defaults in brackets):\n  --config PATH        [/etc/bob/egress-resolver.toml]\n  --answers PATH       [/run/egress-resolver/resolve/answers.json]\n  --hosts PATH         [/run/flashbox-endpoints/hosts]\n  --status PATH        [/run/egress-resolver/status.json]\n  --metrics PATH       [/run/egress-resolver/metrics/egress-resolver.prom]\n  --state-file PATH    [/etc/searcher-network.state]\n  --lock PATH          [/etc/searcher-network.lock]\n  --lock-timeout SECS  [30]\n"@,
{
}

/// The names of the options differ.
proof fn lemma_option_names()
    ensures
        "--config"@ != "--answers"@,
        "--config"@ != "--hosts"@,
        "--config"@ != "--status"@,
        "--config"@ != "--metrics"@,
        "--config"@ != "--state-file"@,
        "--config"@ != "--lock"@,
        "--config"@ != "--lock-timeout"@,
        "--answers"@ != "--hosts"@,
        "--answers"@ != "--status"@,
        "--answers"@ != "--metrics"@,
        "--answers"@ != "--state-file"@,
        "--answers"@ != "--lock"@,
        "--answers"@ != "--lock-timeout"@,
        "--hosts"@ != "--status"@,
        "--hosts"@ != "--metrics"@,
        "--hosts"@ != "--state-file"@,
        "--hosts"@ != "--lock"@,
        "--hosts"@ != "--lock-timeout"@,
        "--status"@ != "--metrics"@,
        "--status"@ != "--state-file"@,
        "--status"@ != "--lock"@,
        "--status"@ != "--lock-timeout"@,
        "--metrics"@ != "--state-file"@,
        "--metrics"@ != "--lock"@,
        "--metrics"@ != "--lock-timeout"@,
        "--state-file"@ != "--lock"@,
        "--state-file"@ != "--lock-timeout"@,
        "--lock"@ != "--lock-timeout"@,
{
    reveal_strlit("--config");
    reveal_strlit("--answers");
    reveal_strlit("--hosts");
    reveal_strlit("--status");
    reveal_strlit("--metrics");
    reveal_strlit("--state-file");
    reveal_strlit("--lock");
    reveal_strlit("--lock-timeout");
    assert("--config"@[2] == 'c');
    assert("--answers"@[2] == 'a');
    assert("--hosts"@[2] == 'h');
    assert("--status"@[5] == 't' && "--status"@.len() == 8);
    assert("--metrics"@[2] == 'm');
    assert("--state-file"@.len() == 12 && "--state-file"@[2] == 's');
    assert("--lock"@.len() == 6 && "--lock"@[2] == 'l');
    assert("--lock-timeout"@.len() == 14);
}

/// An option sets its own value and nothing else.
pub proof fn law_option_sets_its_value(o: OptsView, v: Seq<char>)
    ensures
        with_option(o, "--config"@, v) == Ok::<OptsView, Seq<char>>((OptsView { config: v, ..o })),
        with_option(o, "--answers"@, v) == Ok::<OptsView, Seq<char>>((OptsView { answers: v, ..o })),
        with_option(o, "--hosts"@, v) == Ok::<OptsView, Seq<char>>((OptsView { hosts: v, ..o })),
        with_option(o, "--status"@, v) == Ok::<OptsView, Seq<char>>((OptsView { status: v, ..o })),
        with_option(o, "--metrics"@, v) == Ok::<OptsView, Seq<char>>((OptsView { metrics: v, ..o })),
        with_option(o, "--state-file"@, v) == Ok::<OptsView, Seq<char>>(
            (OptsView { state_file: v, ..o }),
        ),
        with_option(o, "--lock"@, v) == Ok::<OptsView, Seq<char>>((OptsView { lock: v, ..o })),
        with_option(o, "--lock-timeout"@, v) == (match u64_value(v) {
            Some(n) => Ok::<OptsView, Seq<char>>((OptsView { lock_timeout: n, ..o })),
            None => Err::<OptsView, Seq<char>>("bad --lock-timeout "@ + debug_form(v)),
        }),
{
    lemma_option_names();
}

/// Which arguments are followed by a value.
pub proof fn law_options_with_values(a: Seq<char>)
    ensures
        takes_value(a) <==> a == "--config"@ || a == "--answers"@ || a == "--hosts"@ || a
            == "--status"@ || a == "--metrics"@ || a == "--state-file"@ || a == "--lock"@ || a
            == "--lock-timeout"@,
{
}

/// What comes before a position no longer matters.
proof fn lemma_shift(
    pre: Seq<Seq<char>>,
    args: Seq<Seq<char>>,
    i: int,
    command: Option<Seq<char>>,
    o: OptsView,
)
    requires
        0 <= i,
    ensures
        arguments(pre + args, pre.len() + i, command, o) == arguments(args, i, command, o),
    decreases args.len() - i,
{
    let all = pre + args;
    if i < args.len() {
        let a = args[i];
        assert(all[pre.len() + i] == a);
        if takes_value(a) {
            if i + 1 < args.len() {
                assert(all[pre.len() + i + 1] == args[i + 1]);
                match with_option(o, a, args[i + 1]) {
                    Ok(o2) => {
                        lemma_shift(pre, args, i + 2, command, o2);
                    },
                    Err(_) => {},
                }
            }
        } else {
            lemma_shift(pre, args, i + 1, Some(a), o);
        }
    }
}

/// What comes after a complete command line is read with its command and its
/// options.
proof fn lemma_extend(
    args: Seq<Seq<char>>,
    tail: Seq<Seq<char>>,
    i: int,
    command: Option<Seq<char>>,
    o: OptsView,
)
    requires
        0 <= i <= args.len(),
        arguments(args, i, command, o) is Ok,
    ensures
        ({
            let r = arguments(args, i, command, o)->Ok_0;
            arguments(args + tail, i, command, o) == arguments(
                args + tail,
                args.len() as int,
                Some(r.0),
                r.1,
            )
        }),
    decreases args.len() - i,
{
    let all = args + tail;
    if i < args.len() {
        let a = args[i];
        assert(all[i] == a);
        if takes_value(a) {
            assert(i + 1 < args.len());
            assert(all[i + 1] == args[i + 1]);
            match with_option(o, a, args[i + 1]) {
                Ok(o2) => {
                    lemma_extend(args, tail, i + 2, command, o2);
                },
                Err(_) => {},
            }
        } else {
            lemma_extend(args, tail, i + 1, Some(a), o);
        }
    }
}

/// Options may come first: an option with its value in front of a command line
/// changes what the rest starts from.
pub proof fn law_options_may_come_first(
    args: Seq<Seq<char>>,
    a: Seq<char>,
    v: Seq<char>,
    o: OptsView,
)
    requires
        takes_value(a),
    ensures
        with_option(o, a, v) matches Ok(o2) ==> read(seq![a, v] + args, o) == read(args, o2),
        with_option(o, a, v) matches Err(e) ==> read(seq![a, v] + args, o) == Err::<
            (Seq<char>, OptsView),
            Seq<char>,
        >(e),
{
    let pre = seq![a, v];
    let all = pre + args;
    assert(all[0] == a && all[1] == v && all.len() >= 2);
    match with_option(o, a, v) {
        Ok(o2) => {
            lemma_shift(pre, args, 0, None, o2);
        },
        Err(_) => {},
    }
}

/// Options may come last: an option with its value behind a complete command
/// line sets that option, whatever was set before.
pub proof fn law_options_may_come_last(
    args: Seq<Seq<char>>,
    a: Seq<char>,
    v: Seq<char>,
    o: OptsView,
    c: Seq<char>,
    got: OptsView,
)
    requires
        takes_value(a),
        read(args, o) == Ok::<(Seq<char>, OptsView), Seq<char>>((c, got)),
    ensures
        with_option(got, a, v) matches Ok(o2) ==> read(args + seq![a, v], o) == Ok::<
            (Seq<char>, OptsView),
            Seq<char>,
        >((c, o2)),
        with_option(got, a, v) matches Err(e) ==> read(args + seq![a, v], o) == Err::<
            (Seq<char>, OptsView),
            Seq<char>,
        >(e),
        read(args + seq![a], o) == Err::<(Seq<char>, OptsView), Seq<char>>(a + " needs a value"@),
{
    let n = args.len() as int;
    lemma_extend(args, seq![a, v], 0, None, o);
    lemma_extend(args, seq![a], 0, None, o);
    let all = args + seq![a, v];
    assert(all[n] == a && all[n + 1] == v && all.len() == n + 2);
    match with_option(got, a, v) {
        Ok(o2) => {
            assert(arguments(all, n + 2, Some(c), o2) == Ok::<(Seq<char>, OptsView), Seq<char>>(
                (c, o2),
            ));
        },
        Err(_) => {},
    }
    let short = args + seq![a];
    assert(short[n] == a && short.len() == n + 1);
}

/// A word is the command, once: alone it is that command with the options as
/// they are, and behind a complete command line it is one too many.
pub proof fn law_one_command(args: Seq<Seq<char>>, w: Seq<char>, o: OptsView)
    requires
        w.len() == 0 || w[0] != '-',
    ensures
        read(seq![w], o) == Ok::<(Seq<char>, OptsView), Seq<char>>((w, o)),
        read(Seq::empty(), o) == Err::<(Seq<char>, OptsView), Seq<char>>(USAGE@),
        read(args, o) is Ok ==> read(args.push(w), o) == Err::<(Seq<char>, OptsView), Seq<char>>(
            "unexpected argument "@ + w + "\n\n"@ + USAGE@,
        ),
{
    lemma_word(w);
    let one = seq![w];
    assert(one[0] == w && one.len() == 1);
    assert(arguments(one, 1, Some(w), o) == Ok::<(Seq<char>, OptsView), Seq<char>>((w, o)));
    assert(arguments(one, 0, None, o) == arguments(one, 1, Some(w), o));
    if read(args, o) is Ok {
        lemma_extend(args, seq![w], 0, None, o);
        assert(args + seq![w] =~= args.push(w));
        assert(args.push(w)[args.len() as int] == w);
    }
}

/// A word that starts with no hyphen is no option.
proof fn lemma_word(w: Seq<char>)
    requires
        w.len() == 0 || w[0] != '-',
    ensures
        !takes_value(w),
        w != "-h"@,
        w != "--help"@,
        !"-"@.is_prefix_of(w),
{
    reveal_strlit("--config");
    reveal_strlit("--answers");
    reveal_strlit("--hosts");
    reveal_strlit("--status");
    reveal_strlit("--metrics");
    reveal_strlit("--state-file");
    reveal_strlit("--lock");
    reveal_strlit("--lock-timeout");
    reveal_strlit("-h");
    reveal_strlit("--help");
    reveal_strlit("-");
    assert("-"@[0] == '-' && "-"@.len() == 1);
    if "-"@.is_prefix_of(w) {
        assert(w[0] == '-');
    }
}

/// A call for help, and an option that is none, end the reading: behind a
/// complete command line, and in front of anything.
pub proof fn law_other_options_end_the_reading(
    args: Seq<Seq<char>>,
    rest: Seq<Seq<char>>,
    a: Seq<char>,
    o: OptsView,
)
    requires
        a.len() > 0,
        a[0] == '-',
        !takes_value(a),
    ensures
        ({
            let e = if a == "-h"@ || a == "--help"@ {
                USAGE@
            } else {
                "unknown option "@ + a + "\n\n"@ + USAGE@
            };
            &&& read(seq![a] + rest, o) == Err::<(Seq<char>, OptsView), Seq<char>>(e)
            &&& read(args, o) is Ok ==> read(args + (seq![a] + rest), o) == Err::<
                (Seq<char>, OptsView),
                Seq<char>,
            >(e)
        }),
{
    reveal_strlit("-");
    assert("-"@.is_prefix_of(a));
    let tail = seq![a] + rest;
    assert(tail[0] == a);
    if read(args, o) is Ok {
        lemma_extend(args, tail, 0, None, o);
        assert((args + tail)[args.len() as int] == a);
    }
}

/// The commands by name; nothing else is one.
pub proof fn law_commands_by_name(name: Seq<char>)
    ensures
        command_named("resolve"@) == Some(Command::Resolve),
        command_named("apply"@) == Some(Command::Apply),
        command_named("run"@) == Some(Command::Run),
        command_named("check-config"@) == Some(Command::CheckConfig),
        command_named("print-servers"@) == Some(Command::PrintServers),
        command_named(name) is Some ==> name == "resolve"@ || name == "apply"@ || name == "run"@
            || name == "check-config"@ || name == "print-servers"@,
        with_usage(name) == name + "\n\n"@ + USAGE@,
{
    reveal_strlit("resolve");
    reveal_strlit("apply");
    reveal_strlit("run");
    reveal_strlit("check-config");
    reveal_strlit("print-servers");
    assert("resolve"@.len() == 7);
    assert("apply"@.len() == 5);
    assert("run"@.len() == 3);
    assert("check-config"@.len() == 12);
    assert("print-servers"@.len() == 13);
}

// ---------------------------------------------------------------------------
// Reports
// ---------------------------------------------------------------------------

/// What the summary of a configuration tells.
pub proof fn law_config_summary(c: Config)
    ensures
        config_summary(c) == "ok: "@ + numeral(c.endpoints@.len()) + " endpoint(s), "@ + numeral(
            c.static_hosts@.len(),
        ) + " static host(s), resolvers "@ + joined(addr_texts(c.resolver.servers@), ","@)
            + " via "@ + c.resolver.server_name@ + ":"@ + numeral(c.resolver.port as nat)
            + " (deadline "@ + numeral(c.resolver.deadline_secs as nat) + "s), chains "@
            + c.firewall.production_chain@ + " / "@ + c.firewall.maintenance_chain@,
{
}

/// The names that count as resolved are those with a positive result.
pub proof fn law_resolved_count(results: Seq<NameResult>)
    ensures
        resolved_count(results) == results.filter(
            |r: NameResult| r.outcome == Outcome::Resolved,
        ).len(),
    decreases results.len(),
{
    let p = |r: NameResult| r.outcome == Outcome::Resolved;
    reveal(Seq::filter);
    if results.len() > 0 {
        law_resolved_count(results.drop_last());
        assert(results =~= results.drop_last().push(results.last()));
        results.drop_last().lemma_filter_push(results.last(), p);
    }
}

/// A flag is shown as a word.
pub proof fn law_flags_as_words()
    ensures
        bool_form(true) == "true"@,
        bool_form(false) == "false"@,
{
}

/// The mode is what the state file holds, without the white space around it; a
/// file that is absent or holds nothing else means maintenance.
pub proof fn law_mode(a: Seq<char>, core: Seq<char>, b: Seq<char>)
    requires
        all_blank(a),
        all_blank(b),
        core.len() > 0 ==> !is_blank(core[0]) && !is_blank(core[core.len() - 1]),
    ensures
        mode_of(None) == "maintenance"@,
        core.len() == 0 ==> mode_of(Some(a + core + b)) == "maintenance"@,
        core.len() > 0 ==> mode_of(Some(a + core + b)) == core,
{
    law_trimming(a, core, b);
}

} // verus!
