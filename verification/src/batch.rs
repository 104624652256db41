//! What the restore batch says, token by token.

use vstd::prelude::*;

use crate::addr::{addr_text, Ipv4Addr};
use crate::addr_map::AddrNames;
use crate::config::{valid_chain_name, FirewallConfig};
use crate::iptables::{comment_text, restore_text, tokens};
use crate::number::{digits_value, lemma_numeral_value, numeral};
use crate::order::{
    addr_lt, ascending, in_order, lemma_addr_order, lemma_in_order, lemma_name_order, name_lt,
    precedes,
};
use crate::round_trip::{
    accept_words, lemma_accept_words, lemma_before_last_space, lemma_byte_len_monotone,
    lemma_chain_plain, lemma_comment_plain, lemma_first_part, lemma_fitting, lemma_frame_lines,
    lemma_line_tokens, lemma_lines_cut, lemma_one_line_concat, lemma_restore_text,
    lemma_rule_one_line, lemma_rule_words, lemma_space_separates, lemma_spaced_concat,
    lemma_targets, neutral_words, one_line, plain_names, plain_word, quoted_comments, restore_lines,
    rule_line, rule_lines, rule_words, shows, spaced, unbroken,
};
use crate::text::{byte_len, joined, lemma_byte_len_push, pieces};

verus! {

/// `keys` lists the addresses of `m` in ascending order.
pub open spec fn lists(keys: Seq<Ipv4Addr>, m: AddrNames) -> bool {
    &&& forall|i: int, j: int|
        0 <= i < j < keys.len() ==> (#[trigger] keys[i]).bits < (#[trigger] keys[j]).bits
    &&& forall|ip: Ipv4Addr| #[trigger] keys.contains(ip) <==> m.contains_key(ip)
}

proof fn lemma_lists(keys: Seq<Ipv4Addr>, m: AddrNames)
    requires
        lists(keys, m),
    ensures
        in_order(m.dom(), addr_lt()) == keys,
{
    lemma_addr_order();
    assert(ascending(keys, addr_lt()));
    assert(keys.to_set() =~= m.dom());
    lemma_in_order(keys, addr_lt());
}

/// The tokens of a rule line: the chain, the words of the rule, its comment and
/// its target.
proof fn lemma_rule_line_tokens(
    chain: Seq<char>,
    ip: Ipv4Addr,
    conditions: Seq<Seq<char>>,
    shown: Seq<char>,
    c: Seq<char>,
    target: Seq<char>,
)
    requires
        valid_chain_name(chain),
        neutral_words(conditions),
        shows(shown, c),
        plain_word(target),
    ensures
        tokens(rule_line(chain, ip, conditions, shown, target)) == seq!["-A"@, chain] + rule_words(
            ip,
            conditions,
        ) + seq![c, "-j"@, target],
{
    let head = seq!["-A"@, chain];
    let ws = rule_words(ip, conditions);
    reveal_strlit("-A");
    reveal_strlit("-A ");
    reveal_strlit(" ");
    lemma_chain_plain(chain);
    lemma_rule_words(ip, conditions);
    let all = head + ws;
    assert forall|k: int| 0 <= k < all.len() implies plain_word(#[trigger] all[k]) by {
        if k >= 2 {
            assert(all[k] == ws[k - 2]);
        }
    }
    lemma_spaced_concat(head, ws);
    reveal_with_fuel(spaced, 3);
    assert(head.drop_last() =~= seq!["-A"@]);
    assert(seq!["-A"@].drop_last() =~= Seq::<Seq<char>>::empty());
    assert(spaced(head) =~= "-A "@ + chain + " "@);
    assert(rule_line(chain, ip, conditions, shown, target) =~= spaced(all) + shown + " -j "@
        + target);
    lemma_line_tokens(all, shown, c, target);
}

/// Finitely many addresses, each with plain names, however many.
pub open spec fn nameable(m: AddrNames) -> bool {
    &&& m.dom().finite()
    &&& forall|ip: Ipv4Addr| #[trigger] m.contains_key(ip) ==> plain_names(m[ip])
}

/// What both chains of a batch must be like.
pub open spec fn writable(
    fw: FirewallConfig,
    production: AddrNames,
    maintenance: AddrNames,
    pk: Seq<Ipv4Addr>,
    mk: Seq<Ipv4Addr>,
) -> bool {
    &&& valid_chain_name(fw.production_chain@)
    &&& valid_chain_name(fw.maintenance_chain@)
    &&& nameable(production)
    &&& nameable(maintenance)
    &&& lists(pk, production)
    &&& lists(mk, maintenance)
}

proof fn lemma_batch_lines(
    fw: FirewallConfig,
    production: AddrNames,
    maintenance: AddrNames,
    pk: Seq<Ipv4Addr>,
    mk: Seq<Ipv4Addr>,
)
    requires
        writable(fw, production, maintenance, pk, mk),
    ensures
        pieces(restore_text(fw, production, maintenance), '\n') == restore_lines(
            fw,
            production,
            maintenance,
        ).push(Seq::empty()),
        quoted_comments(production).len() == pk.len(),
        quoted_comments(maintenance).len() == mk.len(),
        forall|i: int|
            0 <= i < pk.len() ==> shows(
                #[trigger] quoted_comments(production)[i],
                comment_text(production[pk[i]]),
            ),
        forall|i: int|
            0 <= i < mk.len() ==> shows(
                #[trigger] quoted_comments(maintenance)[i],
                comment_text(maintenance[mk[i]]),
            ),
        in_order(production.dom(), addr_lt()) == pk,
        in_order(maintenance.dom(), addr_lt()) == mk,
        neutral_words(accept_words(fw.port as nat)),
        plain_word("ACCEPT"@),
        plain_word("DROP"@),
{
    let p = fw.production_chain@;
    let m = fw.maintenance_chain@;
    let none = Seq::<Seq<char>>::empty();
    let accept = accept_words(fw.port as nat);
    let lines = restore_lines(fw, production, maintenance);
    let pl = rule_lines(p, production, accept, quoted_comments(production), "ACCEPT"@);
    let ml = rule_lines(m, maintenance, none, quoted_comments(maintenance), "DROP"@);
    lemma_lists(pk, production);
    lemma_lists(mk, maintenance);
    lemma_restore_text(fw, production, maintenance);
    lemma_accept_words(fw.port as nat);
    lemma_targets();
    lemma_shown_comments(production, pk);
    lemma_shown_comments(maintenance, mk);
    lemma_frame_lines(p, p);
    lemma_frame_lines(m, p);
    assert forall|k: int| 0 <= k < lines.len() implies one_line(#[trigger] lines[k]) by {
        if 3 <= k < 3 + pl.len() {
            assert(lines[k] == pl[k - 3]);
            lemma_rule_one_line(
                p,
                pk[k - 3],
                accept,
                quoted_comments(production)[k - 3],
                "ACCEPT"@,
            );
        } else if 3 + pl.len() <= k < 3 + pl.len() + ml.len() {
            assert(lines[k] == ml[k - 3 - pl.len()]);
            lemma_rule_one_line(
                m,
                mk[k - 3 - pl.len()],
                none,
                quoted_comments(maintenance)[k - 3 - pl.len()],
                "DROP"@,
            );
        }
    }
    lemma_lines_cut(lines);
}

/// Every comment is shown in quotes, on one line.
proof fn lemma_shown_comments(m: AddrNames, keys: Seq<Ipv4Addr>)
    requires
        nameable(m),
        lists(keys, m),
    ensures
        quoted_comments(m).len() == keys.len(),
        forall|i: int|
            0 <= i < keys.len() ==> shows(
                #[trigger] quoted_comments(m)[i],
                comment_text(m[keys[i]]),
            ) && one_line(quoted_comments(m)[i]),
{
    lemma_lists(keys, m);
    assert forall|i: int| 0 <= i < keys.len() implies shows(
        #[trigger] quoted_comments(m)[i],
        comment_text(m[keys[i]]),
    ) && one_line(quoted_comments(m)[i]) by {
        assert(keys.contains(keys[i]));
        let c = comment_text(m[keys[i]]);
        lemma_comment_plain(m[keys[i]]);
        lemma_one_line_concat(seq!['"'], c);
        lemma_one_line_concat(seq!['"'] + c, seq!['"']);
    }
}

/// The lines of the batch: it opens with the table, flushes both chains, has
/// one line per address of the one and of the other, and ends with the commit.
/// There is nothing else.
pub proof fn law_batch_frame(
    fw: FirewallConfig,
    production: AddrNames,
    maintenance: AddrNames,
    pk: Seq<Ipv4Addr>,
    mk: Seq<Ipv4Addr>,
)
    requires
        writable(fw, production, maintenance, pk, mk),
    ensures
        ({
            let ls = pieces(restore_text(fw, production, maintenance), '\n');
            &&& ls.len() == pk.len() + mk.len() + 5
            &&& ls[0] == "*filter"@
            &&& ls[1] == ":"@ + fw.production_chain@ + " - [0:0]"@
            &&& ls[2] == ":"@ + fw.maintenance_chain@ + " - [0:0]"@
            &&& ls[pk.len() + mk.len() + 3int] == "COMMIT"@
            &&& ls[pk.len() + mk.len() + 4int] == Seq::<char>::empty()
        }),
{
    lemma_batch_lines(fw, production, maintenance, pk, mk);
}

/// The rule of each address of the production chain, token by token: it accepts
/// new TCP connections to that address on the configured port, and tells the
/// names. The rules stand in ascending order of address.
pub proof fn law_accept_rule(
    fw: FirewallConfig,
    production: AddrNames,
    maintenance: AddrNames,
    pk: Seq<Ipv4Addr>,
    mk: Seq<Ipv4Addr>,
    i: int,
)
    requires
        writable(fw, production, maintenance, pk, mk),
        0 <= i < pk.len(),
    ensures
        ({
            let t = tokens(pieces(restore_text(fw, production, maintenance), '\n')[3 + i]);
            &&& t == seq![
                "-A"@,
                fw.production_chain@,
                "-d"@,
                addr_text(pk[i]) + "/32"@,
                "-p"@,
                "tcp"@,
                "--dport"@,
                numeral(fw.port as nat),
                "-m"@,
                "conntrack"@,
                "--ctstate"@,
                "NEW"@,
                "-m"@,
                "comment"@,
                "--comment"@,
                comment_text(production[pk[i]]),
                "-j"@,
                "ACCEPT"@,
            ]
            &&& digits_value(t[7]) == fw.port
        }),
{
    lemma_numeral_value(fw.port as nat);
    lemma_accept_rule_tokens(fw, production, maintenance, pk, mk, i);
    lemma_accept_tokens(
        fw.production_chain@,
        pk[i],
        fw.port as nat,
        comment_text(production[pk[i]]),
    );
}

proof fn lemma_accept_rule_tokens(
    fw: FirewallConfig,
    production: AddrNames,
    maintenance: AddrNames,
    pk: Seq<Ipv4Addr>,
    mk: Seq<Ipv4Addr>,
    i: int,
)
    requires
        writable(fw, production, maintenance, pk, mk),
        0 <= i < pk.len(),
    ensures
        tokens(pieces(restore_text(fw, production, maintenance), '\n')[3 + i]) == seq![
            "-A"@,
            fw.production_chain@,
        ] + rule_words(pk[i], accept_words(fw.port as nat)) + seq![
            comment_text(production[pk[i]]),
            "-j"@,
            "ACCEPT"@,
        ],
{
    let p = fw.production_chain@;
    let accept = accept_words(fw.port as nat);
    let pq = quoted_comments(production);
    lemma_batch_lines(fw, production, maintenance, pk, mk);
    assert(shows(pq[i], comment_text(production[pk[i]])));
    assert(pieces(restore_text(fw, production, maintenance), '\n')[3 + i] == rule_lines(
        p,
        production,
        accept,
        pq,
        "ACCEPT"@,
    )[i]);
    lemma_rule_line_tokens(p, pk[i], accept, pq[i], comment_text(production[pk[i]]), "ACCEPT"@);
}

proof fn lemma_accept_tokens(p: Seq<char>, ip: Ipv4Addr, port: nat, c: Seq<char>)
    ensures
        seq!["-A"@, p] + rule_words(ip, accept_words(port)) + seq![c, "-j"@, "ACCEPT"@] == seq![
            "-A"@,
            p,
            "-d"@,
            addr_text(ip) + "/32"@,
            "-p"@,
            "tcp"@,
            "--dport"@,
            numeral(port),
            "-m"@,
            "conntrack"@,
            "--ctstate"@,
            "NEW"@,
            "-m"@,
            "comment"@,
            "--comment"@,
            c,
            "-j"@,
            "ACCEPT"@,
        ],
{
    let a = accept_words(port);
    let w = rule_words(ip, a);
    assert(a.len() == 8);
    assert(w.len() == 13);
    assert(w.take(2) =~= seq!["-d"@, addr_text(ip) + "/32"@]);
    assert(seq!["-A"@, p] + w + seq![c, "-j"@, "ACCEPT"@] =~= seq![
        "-A"@,
        p,
        "-d"@,
        addr_text(ip) + "/32"@,
        "-p"@,
        "tcp"@,
        "--dport"@,
        numeral(port),
        "-m"@,
        "conntrack"@,
        "--ctstate"@,
        "NEW"@,
        "-m"@,
        "comment"@,
        "--comment"@,
        c,
        "-j"@,
        "ACCEPT"@,
    ]);
}

/// The rule of each address of the maintenance chain, token by token: it drops
/// everything to that address, whatever the port, and tells the names. The
/// rules stand in ascending order of address.
pub proof fn law_drop_rule(
    fw: FirewallConfig,
    production: AddrNames,
    maintenance: AddrNames,
    pk: Seq<Ipv4Addr>,
    mk: Seq<Ipv4Addr>,
    i: int,
)
    requires
        writable(fw, production, maintenance, pk, mk),
        0 <= i < mk.len(),
    ensures
        tokens(pieces(restore_text(fw, production, maintenance), '\n')[3 + pk.len() + i]) == seq![
            "-A"@,
            fw.maintenance_chain@,
            "-d"@,
            addr_text(mk[i]) + "/32"@,
            "-m"@,
            "comment"@,
            "--comment"@,
            comment_text(maintenance[mk[i]]),
            "-j"@,
            "DROP"@,
        ],
{
    lemma_drop_rule_tokens(fw, production, maintenance, pk, mk, i);
    lemma_drop_tokens(fw.maintenance_chain@, mk[i], comment_text(maintenance[mk[i]]));
}

proof fn lemma_drop_rule_tokens(
    fw: FirewallConfig,
    production: AddrNames,
    maintenance: AddrNames,
    pk: Seq<Ipv4Addr>,
    mk: Seq<Ipv4Addr>,
    i: int,
)
    requires
        writable(fw, production, maintenance, pk, mk),
        0 <= i < mk.len(),
    ensures
        tokens(pieces(restore_text(fw, production, maintenance), '\n')[3 + pk.len() + i]) == seq![
            "-A"@,
            fw.maintenance_chain@,
        ] + rule_words(mk[i], Seq::empty()) + seq![
            comment_text(maintenance[mk[i]]),
            "-j"@,
            "DROP"@,
        ],
{
    let m = fw.maintenance_chain@;
    let none = Seq::<Seq<char>>::empty();
    let mq = quoted_comments(maintenance);
    lemma_batch_lines(fw, production, maintenance, pk, mk);
    assert(shows(mq[i], comment_text(maintenance[mk[i]])));
    assert(pieces(restore_text(fw, production, maintenance), '\n')[3 + pk.len() + i] == rule_lines(
        m,
        maintenance,
        none,
        mq,
        "DROP"@,
    )[i]);
    lemma_rule_line_tokens(m, mk[i], none, mq[i], comment_text(maintenance[mk[i]]), "DROP"@);
}

proof fn lemma_drop_tokens(m: Seq<char>, ip: Ipv4Addr, c: Seq<char>)
    ensures
        seq!["-A"@, m] + rule_words(ip, Seq::empty()) + seq![c, "-j"@, "DROP"@] == seq![
            "-A"@,
            m,
            "-d"@,
            addr_text(ip) + "/32"@,
            "-m"@,
            "comment"@,
            "--comment"@,
            c,
            "-j"@,
            "DROP"@,
        ],
{
    let w = rule_words(ip, Seq::empty());
    assert(w.len() == 5);
    assert(seq!["-A"@, m] + w + seq![c, "-j"@, "DROP"@] =~= seq![
        "-A"@,
        m,
        "-d"@,
        addr_text(ip) + "/32"@,
        "-m"@,
        "comment"@,
        "--comment"@,
        c,
        "-j"@,
        "DROP"@,
    ]);
}

/// The port matters: for a production chain with at least one address, two
/// different ports never give the same batch.
pub proof fn law_port_is_in_the_batch(
    a: FirewallConfig,
    b: FirewallConfig,
    production: AddrNames,
    maintenance: AddrNames,
    pk: Seq<Ipv4Addr>,
    mk: Seq<Ipv4Addr>,
)
    requires
        writable(a, production, maintenance, pk, mk),
        writable(b, production, maintenance, pk, mk),
        pk.len() > 0,
        a.port != b.port,
    ensures
        restore_text(a, production, maintenance) != restore_text(b, production, maintenance),
{
    law_accept_rule(a, production, maintenance, pk, mk, 0);
    law_accept_rule(b, production, maintenance, pk, mk, 0);
}

/// `ns` lists the names in ascending order.
pub open spec fn lists_names(ns: Seq<Seq<char>>, names: Set<Seq<char>>) -> bool {
    &&& forall|i: int, j: int|
        0 <= i < j < ns.len() ==> precedes(#[trigger] ns[i], #[trigger] ns[j])
    &&& forall|n: Seq<char>| #[trigger] ns.contains(n) <==> names.contains(n)
}

pub proof fn lemma_lists_names(ns: Seq<Seq<char>>, names: Set<Seq<char>>)
    requires
        lists_names(ns, names),
    ensures
        in_order(names, name_lt()) == ns,
{
    lemma_name_order();
    assert(ascending(ns, name_lt()));
    assert(ns.to_set() =~= names);
    lemma_in_order(ns, name_lt());
}

/// A comment of at most 255 bytes is all the names, in ascending order, with
/// one space between neighbours.
pub proof fn law_comment_lists_the_names(names: Set<Seq<char>>, ns: Seq<Seq<char>>)
    requires
        lists_names(ns, names),
        byte_len(joined(ns, seq![' '])) <= 255,
    ensures
        comment_text(names) == joined(ns, seq![' ']),
{
    reveal_strlit(" ");
    assert(" "@ =~= seq![' ']);
    lemma_lists_names(ns, names);
}

/// Joined names begin with the first of them, and go on with a space.
proof fn lemma_joined_prefix(ns: Seq<Seq<char>>, k: int)
    requires
        0 < k < ns.len(),
    ensures
        ({
            let c = joined(ns, seq![' ']);
            let j = joined(ns.take(k), seq![' ']);
            &&& j.len() < c.len()
            &&& c.take(j.len() as int) == j
            &&& c[j.len() as int] == ' '
        }),
    decreases ns.len(),
{
    let d = ns.drop_last();
    let c = joined(ns, seq![' ']);
    let head = joined(d, seq![' ']);
    let j = joined(ns.take(k), seq![' ']);
    if k == d.len() {
        assert(ns.take(k) =~= d);
        assert(c.take(head.len() as int) =~= head);
    } else {
        assert(ns.take(k) =~= d.take(k));
        lemma_joined_prefix(d, k);
        assert(c.take(j.len() as int) =~= head.take(j.len() as int));
    }
}

/// What would not fit into 255 bytes is cut off between two names: the first
/// ones stay, at least one of them, and as many as leave room for the space
/// behind them.
pub proof fn law_long_comment_is_cut_between_names(
    names: Set<Seq<char>>,
    ns: Seq<Seq<char>>,
) -> (k: int)
    requires
        lists_names(ns, names),
        ns.len() > 0,
        forall|i: int| 0 <= i < ns.len() ==> !(#[trigger] ns[i]).contains(' '),
        byte_len(ns[0]) <= 255,
        byte_len(joined(ns, seq![' '])) > 255,
    ensures
        0 < k < ns.len(),
        comment_text(names) == joined(ns.take(k), seq![' ']),
        k == 1 || byte_len(joined(ns.take(k), seq![' '])) + 1 <= 255,
        byte_len(joined(ns.take(k + 1), seq![' '])) + 1 > 255,
{
    let sp = seq![' '];
    let c = joined(ns, sp);
    reveal_strlit(" ");
    assert(" "@ =~= sp);
    lemma_lists_names(ns, names);
    assert forall|i: int| 0 <= i < ns.len() implies unbroken(#[trigger] ns[i]) by {
        assert forall|q: int| 0 <= q < ns[i].len() implies #[trigger] ns[i][q] != ' ' by {
            if ns[i][q] == ' ' {
                assert(ns[i].contains(' '));
            }
        }
    }
    let m = lemma_fitting(c, 255);
    let f = c.take(m);
    let p = lemma_before_last_space(f);
    let first = ns[0];
    lemma_first_part(ns);
    assert(c.take(first.len() as int) == first);
    assert(first.len() <= m);
    let k = if f.contains(' ') {
        assert(f[p] == c[p]);
        assert(f.take(p) =~= c.take(p));
        lemma_byte_len_monotone(f, p + 1);
        assert(f.take(p + 1) =~= c.take(p).push(' '));
        lemma_byte_len_push(c.take(p), ' ');
        lemma_space_separates(ns, p)
    } else {
        if m > first.len() {
            assert(c[first.len() as int] == ' ');
            assert(f[first.len() as int] == ' ');
            assert(f.contains(' '));
        }
        assert(f =~= first);
        assert(f.take(p) =~= f);
        assert(ns.take(1) =~= seq![first]);
        1
    };
    let now = joined(ns.take(k), sp);
    let next = joined(ns.take(k + 1), sp);
    assert(ns.take(k + 1).drop_last() =~= ns.take(k));
    if k + 1 == ns.len() {
        assert(ns.take(k + 1) =~= ns);
    } else if byte_len(next) + 1 <= 255 {
        lemma_joined_prefix(ns, k + 1);
        let q = next.len() as int;
        assert(c.take(q + 1) =~= next.push(' '));
        lemma_byte_len_push(next, ' ');
        assert(q + 1 <= m);
        assert(f[q] == ' ');
        assert(f.contains(' '));
        assert(now.len() == p);
        assert(p < q < f.len());
        assert(f[q] != ' ');
    }
    k
}

} // verus!
