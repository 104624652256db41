//! The searcher container's hosts file: the configured static entries, then
//! one line per installed address of every endpoint.

use vstd::prelude::*;
use crate::addr::{addr_text, lemma_addr_text_shape, Ipv4Addr};
use crate::addr_map::AddrNames;
use crate::config::StaticHost;
use crate::number::is_digit;
use crate::plan::{states_of, NameState, StateView};
use crate::policy::all_installed;
use crate::round_trip::{
    lemma_lines_concat, lemma_lines_cut, lemma_one_line_concat, lines_text, one_line,
};
use crate::text::{join, joined, pieces, texts};

verus! {

/// An address and the text of the names it maps to.
pub open spec fn host_line(ip: Ipv4Addr, names: Seq<char>) -> Seq<char> {
    addr_text(ip) + " "@ + names + "\n"@
}

/// The static entries, as configured.
pub open spec fn static_lines(hosts: Seq<StaticHost>) -> Seq<char>
    decreases hosts.len(),
{
    if hosts.len() == 0 {
        Seq::empty()
    } else {
        static_lines(hosts.drop_last()) + host_line(
            hosts.last().ip,
            joined(texts(hosts.last().names@), " "@),
        )
    }
}

/// One line per address.
pub open spec fn name_lines(addrs: Seq<Ipv4Addr>, name: Seq<char>) -> Seq<char>
    decreases addrs.len(),
{
    if addrs.len() == 0 {
        Seq::empty()
    } else {
        name_lines(addrs.drop_last(), name) + host_line(addrs.last(), name)
    }
}

/// One line per address of every name.
pub open spec fn endpoint_lines(names: Seq<StateView>) -> Seq<char>
    decreases names.len(),
{
    if names.len() == 0 {
        Seq::empty()
    } else {
        endpoint_lines(names.drop_last()) + name_lines(names.last().addrs, names.last().name)
    }
}

/// The whole file.
pub open spec fn hosts_text(hosts: Seq<StaticHost>, names: Seq<StateView>) -> Seq<char> {
    static_lines(hosts) + endpoint_lines(names)
}

fn push_line(out: &mut String, ip: Ipv4Addr, names: &str)
    ensures
        final(out)@ == old(out)@ + host_line(ip, names@),
{
    out.append(ip.text().as_str());
    out.append(" ");
    out.append(names);
    out.append("\n");
    assert(out@ =~= old(out)@ + host_line(ip, names@));
}

fn push_name(out: &mut String, addrs: &Vec<Ipv4Addr>, name: &str)
    ensures
        final(out)@ == old(out)@ + name_lines(addrs@, name@),
{
    let mut i: usize = 0;
    assert(old(out)@ + name_lines(addrs@.take(0), name@) =~= old(out)@);
    while i < addrs.len()
        invariant
            i <= addrs@.len(),
            out@ == old(out)@ + name_lines(addrs@.take(i as int), name@),
        decreases addrs@.len() - i,
    {
        assert(addrs@.take(i + 1).drop_last() == addrs@.take(i as int));
        push_line(out, addrs[i], name);
        assert(out@ =~= old(out)@ + name_lines(addrs@.take(i + 1), name@));
        i += 1;
    }
    assert(addrs@.take(i as int) == addrs@);
}

/// Renders the hosts file.
pub fn render(static_hosts: &Vec<StaticHost>, names: &Vec<NameState>) -> (r: String)
    ensures
        r@ == hosts_text(static_hosts@, states_of(names@)),
{
    let mut out = String::new();
    let mut i: usize = 0;
    while i < static_hosts.len()
        invariant
            i <= static_hosts@.len(),
            out@ == static_lines(static_hosts@.take(i as int)),
        decreases static_hosts@.len() - i,
    {
        assert(static_hosts@.take(i + 1).drop_last() == static_hosts@.take(i as int));
        let all = join(&static_hosts[i].names, " ");
        push_line(&mut out, static_hosts[i].ip, all.as_str());
        i += 1;
    }
    assert(static_hosts@.take(i as int) == static_hosts@);
    let ghost fixed = out@;
    let ghost all = states_of(names@);
    let mut j: usize = 0;
    assert(fixed + endpoint_lines(all.take(0)) =~= fixed);
    while j < names.len()
        invariant
            j <= names@.len(),
            all == states_of(names@),
            out@ == fixed + endpoint_lines(all.take(j as int)),
        decreases names@.len() - j,
    {
        assert(all.take(j + 1).drop_last() == all.take(j as int));
        assert(all[j as int] == names@[j as int]@);
        push_name(&mut out, &names[j].addrs, names[j].name.as_str());
        assert(out@ =~= fixed + endpoint_lines(all.take(j + 1)));
        j += 1;
    }
    assert(all.take(j as int) == all);
    out
}

// ---------------------------------------------------------------------------
// What the file publishes
// ---------------------------------------------------------------------------

/// A line of the file, without its line feed.
pub open spec fn host_row(ip: Ipv4Addr, names: Seq<char>) -> Seq<char> {
    addr_text(ip) + " "@ + names
}

/// The line of a static entry.
pub open spec fn static_row(h: StaticHost) -> Seq<char> {
    host_row(h.ip, joined(texts(h.names@), " "@))
}

/// The lines of the static entries.
pub open spec fn static_rows(hosts: Seq<StaticHost>) -> Seq<Seq<char>> {
    hosts.map_values(|h: StaticHost| static_row(h))
}

/// The lines of one name.
pub open spec fn name_rows(addrs: Seq<Ipv4Addr>, name: Seq<char>) -> Seq<Seq<char>> {
    addrs.map_values(|ip: Ipv4Addr| host_row(ip, name))
}

/// The lines of all names.
pub open spec fn endpoint_rows(names: Seq<StateView>) -> Seq<Seq<char>>
    decreases names.len(),
{
    if names.len() == 0 {
        Seq::empty()
    } else {
        endpoint_rows(names.drop_last()) + name_rows(names.last().addrs, names.last().name)
    }
}

proof fn lemma_static_rows(hosts: Seq<StaticHost>)
    ensures
        static_lines(hosts) == lines_text(static_rows(hosts)),
    decreases hosts.len(),
{
    if hosts.len() > 0 {
        lemma_static_rows(hosts.drop_last());
        assert(static_rows(hosts).drop_last() =~= static_rows(hosts.drop_last()));
        assert(static_lines(hosts) =~= lines_text(static_rows(hosts)));
    }
}

proof fn lemma_name_rows(addrs: Seq<Ipv4Addr>, name: Seq<char>)
    ensures
        name_lines(addrs, name) == lines_text(name_rows(addrs, name)),
    decreases addrs.len(),
{
    if addrs.len() > 0 {
        lemma_name_rows(addrs.drop_last(), name);
        assert(name_rows(addrs, name).drop_last() =~= name_rows(addrs.drop_last(), name));
        assert(name_lines(addrs, name) =~= lines_text(name_rows(addrs, name)));
    }
}

proof fn lemma_endpoint_rows(names: Seq<StateView>)
    ensures
        endpoint_lines(names) == lines_text(endpoint_rows(names)),
    decreases names.len(),
{
    if names.len() > 0 {
        lemma_endpoint_rows(names.drop_last());
        lemma_name_rows(names.last().addrs, names.last().name);
        lemma_lines_concat(
            endpoint_rows(names.drop_last()),
            name_rows(names.last().addrs, names.last().name),
        );
    }
}

/// Row `k` publishes an address of one of the names.
proof fn lemma_endpoint_row(names: Seq<StateView>, k: int) -> (at: (int, int))
    requires
        0 <= k < endpoint_rows(names).len(),
    ensures
        0 <= at.0 < names.len(),
        0 <= at.1 < names[at.0].addrs.len(),
        endpoint_rows(names)[k] == host_row(names[at.0].addrs[at.1], names[at.0].name),
    decreases names.len(),
{
    let d = names.drop_last();
    let head = endpoint_rows(d);
    if k < head.len() {
        let at = lemma_endpoint_row(d, k);
        assert(names[at.0] == d[at.0]);
        at
    } else {
        (names.len() - 1, k - head.len())
    }
}

/// The row is on one line if its names are.
proof fn lemma_host_row(ip: Ipv4Addr, names: Seq<char>)
    requires
        one_line(names),
    ensures
        one_line(host_row(ip, names)),
{
    let a = addr_text(ip);
    reveal_strlit(" ");
    lemma_addr_text_shape(ip);
    assert forall|i: int| 0 <= i < a.len() implies #[trigger] a[i] != '\n' by {
        assert(is_digit(a[i]) || a[i] == '.');
    }
    lemma_one_line_concat(a, " "@);
    lemma_one_line_concat(a + " "@, names);
}

/// The file publishes the static entries and, for the endpoints, installed
/// addresses only: line by line it holds the static entries as configured,
/// then lines that map an address to an endpoint's name, each of which the
/// production chain allows under that name.
pub proof fn law_hosts_publish_installed_addresses(
    hosts: Seq<StaticHost>,
    names: Seq<StateView>,
    production: AddrNames,
)
    requires
        all_installed(names, production),
        forall|i: int|
            0 <= i < hosts.len() ==> one_line(
                joined(texts((#[trigger] hosts[i]).names@), " "@),
            ),
        forall|i: int| 0 <= i < names.len() ==> one_line((#[trigger] names[i]).name),
    ensures
        pieces(hosts_text(hosts, names), '\n') == (static_rows(hosts) + endpoint_rows(names)).push(
            Seq::empty(),
        ),
        forall|k: int|
            0 <= k < endpoint_rows(names).len() ==> exists|ip: Ipv4Addr, n: Seq<char>|
                #[trigger] endpoint_rows(names)[k] == #[trigger] host_row(ip, n)
                    && production.contains_key(ip) && production[ip].contains(n),
{
    let rows = static_rows(hosts) + endpoint_rows(names);
    lemma_static_rows(hosts);
    lemma_endpoint_rows(names);
    lemma_lines_concat(static_rows(hosts), endpoint_rows(names));
    let n = hosts.len();
    assert forall|k: int| 0 <= k < rows.len() implies one_line(#[trigger] rows[k]) by {
        if k < n {
            assert(rows[k] == static_row(hosts[k]));
            assert(one_line(joined(texts(hosts[k].names@), " "@)));
            lemma_host_row(hosts[k].ip, joined(texts(hosts[k].names@), " "@));
        } else {
            assert(rows[k] == endpoint_rows(names)[k - n]);
            let at = lemma_endpoint_row(names, k - n);
            assert(one_line(names[at.0].name));
            lemma_host_row(names[at.0].addrs[at.1], names[at.0].name);
        }
    }
    lemma_lines_cut(rows);
    assert forall|k: int| 0 <= k < endpoint_rows(names).len() implies exists|
        ip: Ipv4Addr,
        n: Seq<char>,
    |
        #[trigger] endpoint_rows(names)[k] == #[trigger] host_row(ip, n)
            && production.contains_key(ip) && production[ip].contains(n) by {
        let at = lemma_endpoint_row(names, k);
        let ip = names[at.0].addrs[at.1];
        assert(names[at.0].addrs.contains(ip));
        assert(endpoint_rows(names)[k] == host_row(ip, names[at.0].name));
    }
}

/// How the file grows: a static entry adds one line with its address and its
/// names, in the order of the configuration; an address of an endpoint adds one
/// line with that address and the endpoint's name, behind everything else; an
/// endpoint without addresses adds nothing.
pub proof fn law_hosts_file_grows_by_lines(
    hosts: Seq<StaticHost>,
    h: StaticHost,
    names: Seq<StateView>,
    s: StateView,
    ip: Ipv4Addr,
)
    ensures
        hosts_text(Seq::empty(), Seq::empty()) == Seq::<char>::empty(),
        hosts_text(hosts.push(h), Seq::empty()) == hosts_text(hosts, Seq::empty()) + addr_text(h.ip)
            + " "@ + joined(texts(h.names@), " "@) + "\n"@,
        s.addrs.len() == 0 ==> hosts_text(hosts, names.push(s)) == hosts_text(hosts, names),
        hosts_text(hosts, names.push(StateView { addrs: s.addrs.push(ip), ..s })) == hosts_text(
            hosts,
            names.push(s),
        ) + addr_text(ip) + " "@ + s.name + "\n"@,
{
    let none = Seq::<StateView>::empty();
    let more = StateView { addrs: s.addrs.push(ip), ..s };
    assert(hosts.push(h).drop_last() =~= hosts);
    assert(names.push(s).drop_last() =~= names);
    assert(names.push(more).drop_last() =~= names);
    assert(s.addrs.push(ip).drop_last() =~= s.addrs);
    assert(hosts_text(Seq::empty(), none) =~= Seq::<char>::empty());
    assert(hosts_text(hosts.push(h), none) =~= hosts_text(hosts, none) + addr_text(h.ip) + " "@
        + joined(texts(h.names@), " "@) + "\n"@);
    if s.addrs.len() == 0 {
        assert(hosts_text(hosts, names.push(s)) =~= hosts_text(hosts, names));
    }
    assert(hosts_text(hosts, names.push(more)) =~= hosts_text(hosts, names.push(s)) + addr_text(ip)
        + " "@ + s.name + "\n"@);
}

/// Nothing is left out: every static entry and every address of every endpoint
/// has its line.
pub proof fn law_hosts_file_is_complete(
    hosts: Seq<StaticHost>,
    names: Seq<StateView>,
    i: int,
    j: int,
)
    requires
        forall|k: int|
            0 <= k < hosts.len() ==> one_line(joined(texts((#[trigger] hosts[k]).names@), " "@)),
        forall|k: int| 0 <= k < names.len() ==> one_line((#[trigger] names[k]).name),
    ensures
        0 <= i < hosts.len() ==> pieces(hosts_text(hosts, names), '\n')[i] == addr_text(hosts[i].ip)
            + " "@ + joined(texts(hosts[i].names@), " "@),
        0 <= i < names.len() && 0 <= j < names[i].addrs.len() ==> pieces(
            hosts_text(hosts, names),
            '\n',
        ).contains(addr_text(names[i].addrs[j]) + " "@ + names[i].name),
{
    let all = Map::new(
        |ip: Ipv4Addr| true,
        |ip: Ipv4Addr| Set::new(|n: Seq<char>| true),
    );
    law_hosts_publish_installed_addresses(hosts, names, all);
    let rows = pieces(hosts_text(hosts, names), '\n');
    if 0 <= i < names.len() && 0 <= j < names[i].addrs.len() {
        let k = lemma_endpoint_row_of(names, i, j);
        assert(rows[hosts.len() + k] == host_row(names[i].addrs[j], names[i].name));
    }
}

/// Where an address of an endpoint has its line.
proof fn lemma_endpoint_row_of(names: Seq<StateView>, i: int, j: int) -> (k: int)
    requires
        0 <= i < names.len(),
        0 <= j < names[i].addrs.len(),
    ensures
        0 <= k < endpoint_rows(names).len(),
        endpoint_rows(names)[k] == host_row(names[i].addrs[j], names[i].name),
    decreases names.len(),
{
    let d = names.drop_last();
    let head = endpoint_rows(d);
    if i < d.len() {
        assert(d[i] == names[i]);
        lemma_endpoint_row_of(d, i, j)
    } else {
        head.len() + j
    }
}

} // verus!
