//! The two runtime-populated iptables chains.
//!
//! `DYN_BNET_PRODUCTION_OUT` holds one `ACCEPT` rule per currently resolved
//! address (`-d IP -p tcp --dport 443 -m conntrack --ctstate NEW`).
//! `DYN_BNET_MAINTENANCE_OUT` holds one `DROP` rule per address ever resolved
//! since boot. Both chains are created empty by `firewall-config` and are
//! statically jumped to from `PRODUCTION_OUT` / `MAINTENANCE_OUT`.
//!
//! Every rule carries `-m comment --comment "<names>"` so the kernel is the
//! single source of truth for which hostname produced which address. That is
//! what makes the tool stateless: last-known-good addresses are read back from
//! the live chain.
//!
//! Both chains are replaced atomically with one `iptables-restore -n` batch
//! (one netlink transaction; other chains untouched).

use vstd::prelude::*;

use crate::addr::{addr_text, addr_value, Ipv4Addr};
use crate::addr_map::{add_names, AddrMap, AddrNames};
use crate::config::{FirewallConfig, MAX_COMMENT_LEN};
use crate::exec::{reply_of, CallView, Exec, Output, Reply};
use crate::name_set::{name_set, NameSet};
use crate::number::{number_text, numeral, signed_numeral, signed_text};
use crate::order::{addr_lt, in_order, name_lt};
use crate::text::{
    blank, byte_len, bytes_in, chars, is_blank, join, joined, lemma_byte_len_push,
    lemma_cut_nonempty, pieces, range_text, same_text, split, split_words, starts_with, texts, trim,
    trimmed, width, words,
};

verus! {

pub const IPTABLES: &'static str = "/usr/sbin/iptables";

pub const IPTABLES_RESTORE: &'static str = "/usr/sbin/iptables-restore";

/// One dynamic rule as read back from the kernel.
#[derive(Debug, PartialEq, Eq)]
pub struct RuleEntry {
    pub ip: Ipv4Addr,
    pub names: NameSet,
}

/// A rule's destination and the names in its comment.
pub type Rule = (Ipv4Addr, Set<Seq<char>>);

impl View for RuleEntry {
    type V = Rule;

    open spec fn view(&self) -> Rule {
        (self.ip, self.names@)
    }
}

impl Clone for RuleEntry {
    fn clone(&self) -> (r: RuleEntry)
        ensures
            r@ == self@,
    {
        RuleEntry { ip: self.ip, names: self.names.clone() }
    }
}

/// The contents of a list of rules.
pub open spec fn rules_of(v: Seq<RuleEntry>) -> Seq<Rule> {
    v.map_values(|e: RuleEntry| e@)
}

/// A copy of a list of rules.
pub fn clone_rules(v: &Vec<RuleEntry>) -> (r: Vec<RuleEntry>)
    ensures
        rules_of(r@) == rules_of(v@),
{
    let mut out: Vec<RuleEntry> = Vec::new();
    let mut i: usize = 0;
    while i < v.len()
        invariant
            i <= v@.len(),
            rules_of(out@) == rules_of(v@).take(i as int),
        decreases v@.len() - i,
    {
        let e = v[i].clone();
        assert(rules_of(v@).take(i + 1) == rules_of(v@).take(i as int).push(e@));
        out.push(e);
        assert(rules_of(out@) =~= rules_of(v@).take(i + 1));
        i += 1;
    }
    assert(rules_of(v@).take(i as int) == rules_of(v@));
    out
}

// ---------------------------------------------------------------------------
// Rules as an address map
// ---------------------------------------------------------------------------

/// The addresses of the rules, each with all the names its rules carry.
pub open spec fn rules_map(rules: Seq<Rule>) -> AddrNames {
    Map::new(
        |ip: Ipv4Addr| exists|i: int| 0 <= i < rules.len() && (#[trigger] rules[i]).0 == ip,
        |ip: Ipv4Addr|
            Set::new(
                |n: Seq<char>|
                    exists|i: int|
                        0 <= i < rules.len() && (#[trigger] rules[i]).0 == ip
                            && rules[i].1.contains(n),
            ),
    )
}

/// One more rule adds its names to its address.
pub proof fn lemma_rules_map_push(rules: Seq<Rule>, r: Rule)
    ensures
        rules_map(rules.push(r)) == add_names(rules_map(rules), r.0, r.1),
{
    let all = rules.push(r);
    let lhs = rules_map(all);
    let rhs = add_names(rules_map(rules), r.0, r.1);
    assert forall|ip: Ipv4Addr| lhs.dom().contains(ip) <==> rhs.dom().contains(ip) by {
        if lhs.dom().contains(ip) {
            let i = choose|i: int| 0 <= i < all.len() && (#[trigger] all[i]).0 == ip;
            if i < rules.len() {
                assert(rules[i].0 == ip);
            }
        }
        if rules_map(rules).dom().contains(ip) {
            let i = choose|i: int| 0 <= i < rules.len() && (#[trigger] rules[i]).0 == ip;
            assert(all[i].0 == ip);
        }
        if ip == r.0 {
            assert(all[rules.len() as int].0 == ip);
        }
    }
    assert(lhs.dom() =~= rhs.dom());
    assert forall|ip: Ipv4Addr| lhs.dom().contains(ip) implies lhs[ip] == rhs[ip] by {
        assert forall|n: Seq<char>| lhs[ip].contains(n) <==> rhs[ip].contains(n) by {
            if lhs[ip].contains(n) {
                let i = choose|i: int|
                    0 <= i < all.len() && (#[trigger] all[i]).0 == ip && all[i].1.contains(n);
                if i < rules.len() {
                    assert(rules[i].0 == ip && rules[i].1.contains(n));
                    assert(rules_map(rules).contains_key(ip));
                    assert(rules_map(rules)[ip].contains(n));
                }
            }
            if rhs[ip].contains(n) {
                if rules_map(rules).contains_key(ip) && rules_map(rules)[ip].contains(n) {
                    let i = choose|i: int|
                        0 <= i < rules.len() && (#[trigger] rules[i]).0 == ip
                            && rules[i].1.contains(n);
                    assert(all[i].0 == ip && all[i].1.contains(n));
                } else {
                    assert(all[rules.len() as int].0 == ip && all[rules.len() as int].1.contains(
                        n,
                    ));
                }
            }
        }
        assert(lhs[ip] =~= rhs[ip]);
    }
    assert(lhs =~= rhs);
}

/// The addresses of the rules, each with all the names its rules carry.
pub fn entries_to_map(entries: &[RuleEntry]) -> (r: AddrMap)
    ensures
        r@ == rules_map(rules_of(entries@)),
{
    let mut m = AddrMap::new();
    let ghost rules = rules_of(entries@);
    let mut i: usize = 0;
    assert(rules_map(rules.take(0)) =~= AddrNames::empty());
    while i < entries.len()
        invariant
            i <= entries@.len(),
            rules == rules_of(entries@),
            m@ == rules_map(rules.take(i as int)),
        decreases entries@.len() - i,
    {
        proof {
            assert(rules.take(i + 1) == rules.take(i as int).push(entries@[i as int]@));
            lemma_rules_map_push(rules.take(i as int), entries@[i as int]@);
        }
        m = m.with(entries[i].ip, &entries[i].names);
        i += 1;
    }
    assert(rules.take(i as int) == rules);
    m
}

// ---------------------------------------------------------------------------
// Reading rules
// ---------------------------------------------------------------------------

/// Where the tokenizer stands: the finished tokens, the token under way (if
/// `open`), whether a quote is open and whether a backslash came just before.
pub struct Scan {
    pub done: Seq<Seq<char>>,
    pub cur: Seq<char>,
    pub open: bool,
    pub quoted: bool,
    pub escaped: bool,
}

/// Nothing read yet.
pub open spec fn scan_start() -> Scan {
    Scan { done: Seq::empty(), cur: Seq::empty(), open: false, quoted: false, escaped: false }
}

/// One character. A quote toggles quoting; inside quotes a backslash makes the
/// next character literal; outside quotes white space ends a token; anything
/// else belongs to the token under way.
pub open spec fn scan_char(st: Scan, c: char) -> Scan {
    if st.escaped {
        Scan { cur: st.cur.push(c), open: true, escaped: false, ..st }
    } else if c == '"' {
        Scan { quoted: !st.quoted, open: true, ..st }
    } else if c == '\\' && st.quoted {
        Scan { escaped: true, ..st }
    } else if is_blank(c) && !st.quoted {
        if st.open {
            Scan { done: st.done.push(st.cur), cur: Seq::empty(), open: false, ..st }
        } else {
            st
        }
    } else {
        Scan { cur: st.cur.push(c), open: true, ..st }
    }
}

/// The characters of `s` one after the other.
pub open spec fn scan(st: Scan, s: Seq<char>) -> Scan
    decreases s.len(),
{
    if s.len() == 0 {
        st
    } else {
        scan_char(scan(st, s.drop_last()), s.last())
    }
}

/// The tokens at the end of the input.
pub open spec fn scan_end(st: Scan) -> Seq<Seq<char>> {
    if st.open {
        st.done.push(st.cur)
    } else {
        st.done
    }
}

/// The tokens of a rule spec.
pub open spec fn tokens(s: Seq<char>) -> Seq<Seq<char>> {
    scan_end(scan(scan_start(), s))
}

/// Split an iptables rule spec into tokens, honouring double quotes and
/// backslash escapes as `iptables -S` prints them.
pub fn tokenize(s: &str) -> (r: Vec<String>)
    ensures
        texts(r@) == tokens(s@),
{
    let v = chars(s);
    let mut out: Vec<String> = Vec::new();
    let mut cur = String::new();
    let mut open = false;
    let mut in_quote = false;
    let mut escaped = false;
    let mut i: usize = 0;
    let ghost mut st = scan_start();
    assert(v@.take(0) == Seq::<char>::empty());
    while i < v.len()
        invariant
            i <= v@.len(),
            st == scan(scan_start(), v@.take(i as int)),
            texts(out@) == st.done,
            cur@ == st.cur,
            open == st.open,
            in_quote == st.quoted,
            escaped == st.escaped,
        decreases v@.len() - i,
    {
        let c = v[i];
        proof {
            assert(v@.take(i + 1).drop_last() == v@.take(i as int));
            st = scan_char(st, c);
        }
        if escaped {
            cur.push(c);
            open = true;
            escaped = false;
        } else if c == '"' {
            in_quote = !in_quote;
            open = true;
        } else if c == '\\' && in_quote {
            escaped = true;
        } else if blank(c) && !in_quote {
            if open {
                let ghost was = texts(out@).push(cur@);
                out.push(cur);
                assert(texts(out@) =~= was);
                cur = String::new();
                open = false;
            }
        } else {
            cur.push(c);
            open = true;
        }
        i += 1;
    }
    assert(v@.take(i as int) == v@);
    if open {
        let ghost was = texts(out@).push(cur@);
        out.push(cur);
        assert(texts(out@) =~= was);
    }
    out
}

/// What a rule's tokens say: the last `-d` is the destination (without its
/// mask), every `--comment` adds the names in it.
pub open spec fn read_tokens(
    toks: Seq<Seq<char>>,
    ip: Option<Ipv4Addr>,
    names: Set<Seq<char>>,
) -> (Option<Ipv4Addr>, Set<Seq<char>>)
    decreases toks.len(),
{
    if toks.len() == 0 {
        (ip, names)
    } else if toks[0] == "-d"@ && toks.len() > 1 {
        read_tokens(toks.skip(2), addr_value(pieces(toks[1], '/')[0]), names)
    } else if toks[0] == "--comment"@ && toks.len() > 1 {
        read_tokens(toks.skip(2), ip, names.union(words(toks[1]).to_set()))
    } else {
        read_tokens(toks.skip(1), ip, names)
    }
}

/// A rule of `chain` that asks nothing of a packet and has no target.
pub open spec fn bare_rule(chain: Seq<char>) -> Seq<char> {
    "-A "@ + chain
}

/// How every other rule of `chain` begins.
pub open spec fn rule_prefix(chain: Seq<char>) -> Seq<char> {
    bare_rule(chain) + " "@
}

/// Whether a line, trimmed, is a rule of `chain`.
pub open spec fn is_rule_line(line: Seq<char>, chain: Seq<char>) -> bool {
    trimmed(line) == bare_rule(chain) || rule_prefix(chain).is_prefix_of(trimmed(line))
}

/// The rule of `chain` in a line, if the line holds one with a destination.
pub open spec fn rule_in(line: Seq<char>, chain: Seq<char>) -> Option<Rule> {
    if rule_prefix(chain).is_prefix_of(trimmed(line)) {
        let spec_text = trimmed(line).skip(rule_prefix(chain).len() as int);
        match read_tokens(tokens(spec_text), None, Set::empty()) {
            (Some(ip), names) => Some((ip, names)),
            (None, _) => None,
        }
    } else {
        None
    }
}

/// The rules of `chain` in a listing, line by line.
pub open spec fn listed_rules(output: Seq<char>, chain: Seq<char>) -> Seq<Rule> {
    pieces(output, '\n').filter_map(|line: Seq<char>| rule_in(line, chain))
}

/// The number of lines of a listing that are rules of `chain`.
pub open spec fn rule_count(output: Seq<char>, chain: Seq<char>) -> nat {
    pieces(output, '\n').filter(|line: Seq<char>| is_rule_line(line, chain)).len()
}

fn bare_text(chain: &str) -> (r: String)
    ensures
        r@ == bare_rule(chain@),
{
    let mut s = "-A ".to_owned();
    s.append(chain);
    s
}

fn prefix_text(chain: &str) -> (r: String)
    ensures
        r@ == rule_prefix(chain@),
{
    let mut s = bare_text(chain);
    s.append(" ");
    s
}

/// Reads the tokens of one rule.
fn parse_tokens(toks: &Vec<String>) -> (r: Option<RuleEntry>)
    ensures
        match read_tokens(texts(toks@), None, Set::empty()) {
            (Some(ip), names) => r matches Some(e) && e@ == (ip, names),
            (None, _) => r is None,
        },
{
    let ghost all = texts(toks@);
    let mut ip: Option<Ipv4Addr> = None;
    let mut names = NameSet::new();
    let mut i: usize = 0;
    let n: usize = toks.len();
    assert(all.skip(0) == all);
    while i < n
        invariant
            i <= n == toks@.len(),
            all == texts(toks@),
            read_tokens(all.skip(i as int), ip, names@) == read_tokens(all, None, Set::empty()),
        decreases n - i,
    {
        let ghost rest = all.skip(i as int);
        assert(rest[0] == toks@[i as int]@);
        if same_text(toks[i].as_str(), "-d") && n - i > 1 {
            assert(rest[1] == toks@[i + 1]@);
            let parts = split(toks[i + 1].as_str(), '/');
            proof {
                lemma_cut_nonempty(toks@[i + 1]@, crate::text::equals('/'));
                assert(texts(parts@).len() == parts@.len());
                assert(texts(parts@)[0] == parts@[0]@);
            }
            ip = Ipv4Addr::parse(parts[0].as_str());
            assert(rest.skip(2) == all.skip(i + 2));
            i += 2;
        } else if same_text(toks[i].as_str(), "--comment") && n - i > 1 {
            assert(rest[1] == toks@[i + 1]@);
            let found = name_set(split_words(toks[i + 1].as_str()));
            names = names.union(&found);
            assert(rest.skip(2) == all.skip(i + 2));
            proof {
                reveal_strlit("-d");
                reveal_strlit("--comment");
            }
            i += 2;
        } else {
            assert(rest.skip(1) == all.skip(i + 1));
            i += 1;
        }
    }
    match ip {
        Some(ip) => Some(RuleEntry { ip, names }),
        None => None,
    }
}

fn parse_line(line: &str, chain: &str) -> (r: Option<RuleEntry>)
    ensures
        r is Some <==> rule_in(line@, chain@) is Some,
        r matches Some(e) ==> rule_in(line@, chain@) == Some(e@),
{
    let prefix = prefix_text(chain);
    let t = trim(line);
    if !starts_with(t.as_str(), prefix.as_str()) {
        return None;
    }
    let v = chars(t.as_str());
    let skip: usize = chars(prefix.as_str()).len();
    let rest = range_text(&v, skip, v.len());
    assert(v@.subrange(skip as int, v@.len() as int) == v@.skip(skip as int));
    parse_tokens(&tokenize(rest.as_str()))
}

/// Parse the output of `iptables -S <chain>` into rule entries.
///
/// Rules without a destination address are ignored; a missing comment yields
/// an empty name set.
pub fn parse_chain(output: &str, chain: &str) -> (r: Vec<RuleEntry>)
    ensures
        rules_of(r@) == listed_rules(output@, chain@),
{
    let lines = split(output, '\n');
    let ghost all = pieces(output@, '\n');
    let ghost f = |line: Seq<char>| rule_in(line, chain@);
    let mut out: Vec<RuleEntry> = Vec::new();
    let mut i: usize = 0;
    while i < lines.len()
        invariant
            i <= lines@.len(),
            texts(lines@) == all,
            f == (|line: Seq<char>| rule_in(line, chain@)),
            rules_of(out@) == all.take(i as int).filter_map(f),
        decreases lines@.len() - i,
    {
        assert(all[i as int] == lines@[i as int]@);
        proof {
            all.lemma_filter_map_take_succ(f, i as int);
        }
        match parse_line(lines[i].as_str(), chain) {
            Some(e) => {
                let ghost was = rules_of(out@).push(e@);
                out.push(e);
                assert(rules_of(out@) =~= was);
                assert(rules_of(out@) =~= all.take(i + 1).filter_map(f));
            },
            None => {
                assert(rules_of(out@) =~= all.take(i + 1).filter_map(f));
            },
        }
        i += 1;
    }
    assert(all.take(i as int) == all);
    out
}

/// Number of `-A <chain>` lines in `iptables -S <chain>` output.
pub fn count_rules(output: &str, chain: &str) -> (r: usize)
    ensures
        r == rule_count(output@, chain@),
{
    let bare = bare_text(chain);
    let prefix = prefix_text(chain);
    let lines = split(output, '\n');
    let ghost all = pieces(output@, '\n');
    let ghost p = |line: Seq<char>| is_rule_line(line, chain@);
    let mut count: usize = 0;
    let mut i: usize = 0;
    let n: usize = lines.len();
    assert(all.take(0).filter(p).len() == 0) by {
        reveal(Seq::filter);
    }
    while i < n
        invariant
            i <= n == lines@.len(),
            texts(lines@) == all,
            bare@ == bare_rule(chain@),
            prefix@ == rule_prefix(chain@),
            p == (|line: Seq<char>| is_rule_line(line, chain@)),
            count == all.take(i as int).filter(p).len(),
            count <= i,
        decreases n - i,
    {
        assert(all[i as int] == lines@[i as int]@);
        proof {
            assert(all.take(i + 1) == all.take(i as int).push(all[i as int]));
            all.take(i as int).lemma_filter_push(all[i as int], p);
        }
        let t = trim(lines[i].as_str());
        if same_text(t.as_str(), bare.as_str()) || starts_with(t.as_str(), prefix.as_str()) {
            count += 1;
        }
        i += 1;
    }
    assert(all.take(i as int) == all);
    count
}

// ---------------------------------------------------------------------------
// Writing rules
// ---------------------------------------------------------------------------

/// The longest prefix of at most `n` bytes.
pub open spec fn fitting(s: Seq<char>, n: nat) -> Seq<char>
    decreases s.len(),
{
    if byte_len(s) <= n || s.len() == 0 {
        s
    } else {
        fitting(s.drop_last(), n)
    }
}

/// What comes before the last space; everything if there is none.
pub open spec fn before_last_space(s: Seq<char>) -> Seq<char>
    decreases s.len(),
{
    if !s.contains(' ') {
        s
    } else if s.last() == ' ' {
        s.drop_last()
    } else {
        before_last_space(s.drop_last())
    }
}

/// The names in ascending order, separated by spaces.
pub open spec fn full_comment(names: Set<Seq<char>>) -> Seq<char> {
    joined(in_order(names, name_lt()), " "@)
}

/// A rule's comment: the names, as many as fit.
pub open spec fn comment_text(names: Set<Seq<char>>) -> Seq<char> {
    let c = full_comment(names);
    if byte_len(c) <= MAX_COMMENT_LEN {
        c
    } else {
        before_last_space(fitting(c, MAX_COMMENT_LEN as nat))
    }
}

/// The position of the last space.
fn last_space(v: &Vec<char>, upto: usize) -> (r: usize)
    requires
        upto <= v@.len(),
    ensures
        r <= upto,
        v@.take(r as int) == before_last_space(v@.take(upto as int)),
{
    let ghost s = v@.take(upto as int);
    let mut k: usize = upto;
    assert(s.take(upto as int) == s);
    while k > 0
        invariant
            k <= upto <= v@.len(),
            s == v@.take(upto as int),
            forall|i: int| k <= i < upto ==> #[trigger] s[i] != ' ',
            s.contains(' ') ==> before_last_space(s) == before_last_space(s.take(k as int)),
        decreases k,
    {
        let ghost t = s.take(k as int);
        proof {
            assert(s.take(upto as int) == s);
            if s.contains(' ') {
                let i = choose|i: int| 0 <= i < s.len() && s[i] == ' ';
                assert(t[i] == ' ');
            }
        }
        if v[k - 1] == ' ' {
            assert(s[k - 1] == ' ');
            assert(s.contains(' '));
            assert(t.last() == ' ');
            assert(t.contains(' '));
            assert(t.drop_last() == v@.take(k - 1));
            return k - 1;
        }
        assert(t.last() != ' ');
        assert(t.drop_last() == s.take(k - 1));
        k -= 1;
    }
    assert(!s.contains(' '));
    upto
}

/// The comment of a rule: the names it was made for, as many as fit.
pub fn comment(names: &NameSet) -> (r: String)
    ensures
        r@ == comment_text(names@),
{
    let c = join(names.list(), " ");
    let mut total: usize = bytes_in(c.as_str());
    if total <= MAX_COMMENT_LEN {
        return c;
    }
    // provenance is informational; keep whole names only
    let v = chars(c.as_str());
    let mut cut: usize = v.len();
    assert(v@.take(cut as int) == v@);
    while total > MAX_COMMENT_LEN && cut > 0
        invariant
            cut <= v@.len(),
            total == byte_len(v@.take(cut as int)),
            fitting(v@.take(cut as int), MAX_COMMENT_LEN as nat) == fitting(
                c@,
                MAX_COMMENT_LEN as nat,
            ),
        decreases cut,
    {
        let w: usize = width(v[cut - 1]);
        proof {
            assert(v@.take(cut as int) == v@.take(cut - 1).push(v@[cut - 1]));
            lemma_byte_len_push(v@.take(cut - 1), v@[cut - 1]);
            assert(v@.take(cut as int).drop_last() == v@.take(cut - 1));
        }
        total -= w;
        cut -= 1;
    }
    assert(v@.take(cut as int) == fitting(c@, MAX_COMMENT_LEN as nat));
    let end = last_space(&v, cut);
    assert(v@.subrange(0, end as int) == v@.take(end as int));
    range_text(&v, 0, end)
}

/// A rule of `chain` for one destination.
pub open spec fn rule_text(
    chain: Seq<char>,
    ip: Ipv4Addr,
    conditions: Seq<char>,
    names: Set<Seq<char>>,
    target: Seq<char>,
) -> Seq<char> {
    "-A "@ + chain + " -d "@ + addr_text(ip) + "/32 "@ + conditions + "-m comment --comment \""@
        + comment_text(names) + "\" -j "@ + target + "\n"@
}

/// What an accept rule asks of a packet besides its destination.
pub open spec fn accept_conditions(port: nat) -> Seq<char> {
    "-p tcp --dport "@ + numeral(port) + " -m conntrack --ctstate NEW "@
}

/// One rule per address, in the order given.
pub open spec fn rules_text(
    chain: Seq<char>,
    conditions: Seq<char>,
    target: Seq<char>,
    m: AddrNames,
    keys: Seq<Ipv4Addr>,
) -> Seq<char>
    decreases keys.len(),
{
    if keys.len() == 0 {
        Seq::empty()
    } else {
        rules_text(chain, conditions, target, m, keys.drop_last()) + rule_text(
            chain,
            keys.last(),
            conditions,
            m[keys.last()],
            target,
        )
    }
}

/// One rule per address, in ascending order of address.
pub open spec fn chain_text(
    chain: Seq<char>,
    conditions: Seq<char>,
    target: Seq<char>,
    m: AddrNames,
) -> Seq<char> {
    rules_text(chain, conditions, target, m, in_order(m.dom(), addr_lt()))
}

/// The line that creates or flushes a chain.
pub open spec fn chain_header(chain: Seq<char>) -> Seq<char> {
    ":"@ + chain + " - [0:0]\n"@
}

/// The `iptables-restore -n` batch that replaces both chains.
pub open spec fn restore_text(
    fw: FirewallConfig,
    production: AddrNames,
    maintenance: AddrNames,
) -> Seq<char> {
    "*filter\n"@ + chain_header(fw.production_chain@) + chain_header(fw.maintenance_chain@)
        + chain_text(
        fw.production_chain@,
        accept_conditions(fw.port as nat),
        "ACCEPT"@,
        production,
    ) + chain_text(fw.maintenance_chain@, Seq::empty(), "DROP"@, maintenance) + "COMMIT\n"@
}

fn push_rule(out: &mut String, chain: &str, ip: Ipv4Addr, conditions: &str, names: &NameSet, target: &str)
    ensures
        final(out)@ == old(out)@ + rule_text(chain@, ip, conditions@, names@, target@),
{
    out.append("-A ");
    out.append(chain);
    out.append(" -d ");
    out.append(ip.text().as_str());
    out.append("/32 ");
    out.append(conditions);
    out.append("-m comment --comment \"");
    out.append(comment(names).as_str());
    out.append("\" -j ");
    out.append(target);
    out.append("\n");
    assert(out@ =~= old(out)@ + rule_text(chain@, ip, conditions@, names@, target@));
}

fn push_chain(out: &mut String, chain: &str, conditions: &str, target: &str, m: &AddrMap)
    ensures
        final(out)@ == old(out)@ + chain_text(chain@, conditions@, target@, m@),
{
    let keys = m.keys();
    let mut i: usize = 0;
    assert(old(out)@ + rules_text(chain@, conditions@, target@, m@, keys@.take(0)) =~= old(out)@);
    while i < keys.len()
        invariant
            i <= keys@.len(),
            keys@.to_set() == m@.dom(),
            out@ == old(out)@ + rules_text(chain@, conditions@, target@, m@, keys@.take(i as int)),
        decreases keys@.len() - i,
    {
        assert(keys@.contains(keys@[i as int]));
        assert(m@.dom().contains(keys@[i as int]));
        assert(keys@.take(i + 1).drop_last() == keys@.take(i as int));
        match m.get(keys[i]) {
            Some(names) => {
                push_rule(out, chain, keys[i], conditions, names, target);
            },
            None => {
                assert(false);
            },
        }
        assert(out@ =~= old(out)@ + rules_text(
            chain@,
            conditions@,
            target@,
            m@,
            keys@.take(i + 1),
        ));
        i += 1;
    }
    assert(keys@.take(i as int) == keys@);
}

/// Render the `iptables-restore -n` batch that replaces both chains.
pub fn render_restore(fw: &FirewallConfig, production: &AddrMap, maintenance: &AddrMap) -> (r:
    String)
    ensures
        r@ == restore_text(*fw, production@, maintenance@),
{
    let mut s = "*filter\n".to_owned();
    s.append(":");
    s.append(fw.production_chain.as_str());
    s.append(" - [0:0]\n");
    s.append(":");
    s.append(fw.maintenance_chain.as_str());
    s.append(" - [0:0]\n");
    let mut conditions = "-p tcp --dport ".to_owned();
    conditions.append(number_text(fw.port as u64).as_str());
    conditions.append(" -m conntrack --ctstate NEW ");
    push_chain(&mut s, fw.production_chain.as_str(), conditions.as_str(), "ACCEPT", production);
    let none = String::new();
    push_chain(&mut s, fw.maintenance_chain.as_str(), none.as_str(), "DROP", maintenance);
    s.append("COMMIT\n");
    assert(s@ =~= restore_text(*fw, production@, maintenance@));
    s
}

// ---------------------------------------------------------------------------
// Talking to the kernel
// ---------------------------------------------------------------------------

/// A chain as read back from the kernel.
#[derive(Debug, PartialEq, Eq)]
pub struct ChainRead {
    /// The rules `parse_chain` understood: one destination each.
    pub entries: Vec<RuleEntry>,
    /// Every `-A <chain>` line, including rules `parse_chain` ignored.
    pub rule_lines: usize,
}

/// The contents of a [`ChainRead`].
pub struct ChainView {
    pub rules: Seq<Rule>,
    pub rule_lines: nat,
}

impl View for ChainRead {
    type V = ChainView;

    open spec fn view(&self) -> ChainView {
        ChainView { rules: rules_of(self.entries@), rule_lines: self.rule_lines as nat }
    }
}

impl Clone for ChainRead {
    fn clone(&self) -> (r: ChainRead)
        ensures
            r@ == self@,
    {
        ChainRead { entries: clone_rules(&self.entries), rule_lines: self.rule_lines }
    }
}

impl Default for ChainRead {
    fn default() -> (r: ChainRead)
        ensures
            r.entries@.len() == 0,
            r.rule_lines == 0,
    {
        ChainRead { entries: Vec::new(), rule_lines: 0 }
    }
}

/// The chain holds exactly one rule per address: every rule line was
/// understood, and no two rules have the same destination.
pub open spec fn one_rule_each(c: ChainView) -> bool {
    &&& c.rule_lines == c.rules.len()
    &&& forall|i: int, j: int|
        0 <= i < j < c.rules.len() ==> (#[trigger] c.rules[i]).0 != (#[trigger] c.rules[j]).0
}

/// The rules' destinations number as many as the rules exactly if they are
/// pairwise different.
pub proof fn lemma_distinct_count(rules: Seq<Rule>)
    ensures
        rules_map(rules).dom().finite(),
        rules_map(rules).dom().len() <= rules.len(),
        rules_map(rules).dom().len() == rules.len() <==> forall|i: int, j: int|
            0 <= i < j < rules.len() ==> (#[trigger] rules[i]).0 != (#[trigger] rules[j]).0,
    decreases rules.len(),
{
    let dom = rules_map(rules).dom();
    if rules.len() == 0 {
        assert(dom =~= Set::<Ipv4Addr>::empty());
    } else {
        let d = rules.drop_last();
        let x = rules.last();
        lemma_distinct_count(d);
        assert(d.push(x) == rules);
        lemma_rules_map_push(d, x);
        assert(dom == rules_map(d).dom().insert(x.0));
        assert forall|k: int| 0 <= k < d.len() implies d[k] == #[trigger] rules[k] by {}
        if rules_map(d).dom().contains(x.0) {
            let k = choose|k: int| 0 <= k < d.len() && (#[trigger] d[k]).0 == x.0;
            assert(rules[k].0 == rules[rules.len() - 1].0);
        } else {
            if forall|i: int, j: int| 0 <= i < j < d.len() ==> (#[trigger] d[i]).0 != (
            #[trigger] d[j]).0 {
                assert forall|i: int, j: int| 0 <= i < j < rules.len() implies (
                #[trigger] rules[i]).0 != (#[trigger] rules[j]).0 by {
                    if j < d.len() {
                        assert(d[i].0 != d[j].0);
                    } else {
                        assert(d[i].0 != x.0);
                    }
                }
            } else {
                let (i, j) = choose|i: int, j: int|
                    0 <= i < j < d.len() && (#[trigger] d[i]).0 == (#[trigger] d[j]).0;
                assert(rules[i].0 == rules[j].0);
            }
        }
    }
}

impl ChainRead {
    /// True if the chain holds anything but exactly one rule per address: a
    /// rule without a destination (not one of ours) or the same address twice
    /// (a partially applied earlier batch). Such a chain is rewritten even when
    /// its address map already equals the plan.
    pub fn is_dirty(&self) -> (r: bool)
        ensures
            r == !one_rule_each(self@),
    {
        proof {
            lemma_distinct_count(rules_of(self.entries@));
        }
        self.rule_lines != self.entries.len() || entries_to_map(self.entries.as_slice()).len()
            != self.entries.len()
    }
}

/// The command that lists `chain`.
pub open spec fn list_call(chain: Seq<char>) -> CallView {
    CallView { program: IPTABLES@, args: seq!["-w"@, "5"@, "-S"@, chain], stdin: None }
}

/// What a reply to the listing command says about `chain`.
pub open spec fn chain_in_reply(chain: Seq<char>, reply: Reply) -> Result<ChainView, Seq<char>> {
    match reply {
        Err(e) => Err("cannot run "@ + IPTABLES@ + ": "@ + e),
        Ok(out) => if out.status != 0 {
            Err(
                "iptables -S "@ + chain + " failed (status "@ + signed_numeral(out.status) + "): "@
                    + trimmed(out.stderr),
            )
        } else {
            Ok(
                ChainView {
                    rules: listed_rules(out.stdout, chain),
                    rule_lines: rule_count(out.stdout, chain),
                },
            )
        },
    }
}

/// The contents of what reading a chain returns.
pub open spec fn chain_result(r: Result<ChainRead, String>) -> Result<ChainView, Seq<char>> {
    match r {
        Ok(c) => Ok(c@),
        Err(e) => Err(e@),
    }
}

/// What a reply to the listing command says about `chain`.
pub fn interpret_listing(reply: Result<Output, String>, chain: &str) -> (r: Result<
    ChainRead,
    String,
>)
    ensures
        chain_result(r) == chain_in_reply(chain@, reply_of(reply)),
{
    match reply {
        Err(e) => {
            let mut s = "cannot run ".to_owned();
            s.append(IPTABLES);
            s.append(": ");
            s.append(e.as_str());
            Err(s)
        },
        Ok(out) => {
            if !out.success() {
                let mut s = "iptables -S ".to_owned();
                s.append(chain);
                s.append(" failed (status ");
                s.append(signed_text(out.status as i64).as_str());
                s.append("): ");
                s.append(trim(out.stderr.as_str()).as_str());
                return Err(s);
            }
            Ok(
                ChainRead {
                    entries: parse_chain(out.stdout.as_str(), chain),
                    rule_lines: count_rules(out.stdout.as_str(), chain),
                },
            )
        },
    }
}

/// Read the current contents of a chain. Fails if the chain does not exist,
/// which means the firewall has not been initialised.
pub fn read_chain<E: Exec>(exec: &mut E, chain: &str) -> (r: Result<ChainRead, String>)
    ensures
        final(exec).log().len() == old(exec).log().len() + 1,
        final(exec).log().drop_last() == old(exec).log(),
        final(exec).log().last().call == list_call(chain@),
        chain_result(r) == chain_in_reply(chain@, final(exec).log().last().reply),
{
    let reply = exec.run(IPTABLES, &["-w", "5", "-S", chain], None);
    assert(exec.log().drop_last() =~= old(exec).log());
    assert(exec.log().last().call.args =~= list_call(chain@).args);
    interpret_listing(reply, chain)
}

/// The command that replaces both chains.
pub open spec fn restore_call(batch: Seq<char>) -> CallView {
    CallView {
        program: IPTABLES_RESTORE@,
        args: seq!["-w"@, "5"@, "-n"@],
        stdin: Some(batch),
    }
}

/// Whether a reply to the restore command reports success.
pub open spec fn restore_in_reply(reply: Reply) -> Result<(), Seq<char>> {
    match reply {
        Err(e) => Err("cannot run "@ + IPTABLES_RESTORE@ + ": "@ + e),
        Ok(out) => if out.status != 0 {
            Err(
                "iptables-restore failed (status "@ + signed_numeral(out.status) + "): "@ + trimmed(
                    out.stderr,
                ),
            )
        } else {
            Ok(())
        },
    }
}

/// The contents of a result that carries nothing on success.
pub open spec fn unit_result(r: Result<(), String>) -> Result<(), Seq<char>> {
    match r {
        Ok(u) => Ok(u),
        Err(e) => Err(e@),
    }
}

/// Whether a reply to the restore command reports success.
pub fn interpret_restore(reply: Result<Output, String>) -> (r: Result<(), String>)
    ensures
        unit_result(r) == restore_in_reply(reply_of(reply)),
{
    match reply {
        Err(e) => {
            let mut s = "cannot run ".to_owned();
            s.append(IPTABLES_RESTORE);
            s.append(": ");
            s.append(e.as_str());
            Err(s)
        },
        Ok(out) => {
            if !out.success() {
                let mut s = "iptables-restore failed (status ".to_owned();
                s.append(signed_text(out.status as i64).as_str());
                s.append("): ");
                s.append(trim(out.stderr.as_str()).as_str());
                return Err(s);
            }
            Ok(())
        },
    }
}

/// Apply a restore batch atomically.
pub fn apply_restore<E: Exec>(exec: &mut E, batch: &str) -> (r: Result<(), String>)
    ensures
        final(exec).log().len() == old(exec).log().len() + 1,
        final(exec).log().drop_last() == old(exec).log(),
        final(exec).log().last().call == restore_call(batch@),
        unit_result(r) == restore_in_reply(final(exec).log().last().reply),
{
    let reply = exec.run(IPTABLES_RESTORE, &["-w", "5", "-n"], Some(batch));
    assert(exec.log().drop_last() =~= old(exec).log());
    assert(exec.log().last().call.args =~= restore_call(batch@).args);
    interpret_restore(reply)
}

} // verus!
