//! What is written to a chain is what is read back from it.

use vstd::prelude::*;
use crate::addr::{addr_text, addr_value, law_addr_round_trip, lemma_addr_text_shape, Ipv4Addr};
use crate::addr_map::AddrNames;
use crate::config::{valid_chain_name, FirewallConfig, MAX_COMMENT_LEN};
use crate::iptables::{
    accept_conditions, bare_rule, before_last_space, chain_header, comment_text, fitting,
    full_comment, is_rule_line, listed_rules, one_rule_each, read_tokens, restore_text, rule_count,
    rule_in, rule_prefix, rule_text, rules_map, rules_text, scan, scan_char, scan_start, tokens,
    ChainView, Rule, Scan,
};
use crate::number::{is_digit, lemma_numeral_digits, numeral};
use crate::order::{
    addr_lt, in_order, lemma_addr_order, lemma_in_order_finite, lemma_name_total, name_lt,
};
use crate::text::{
    byte_len, cut, equals, is_alnum, is_blank, joined, lemma_byte_len_push, lemma_cut_at,
    lemma_cut_joined, lemma_cut_nonempty, lemma_cut_whole, lemma_words_joined, pieces, trimmed, trimmed_end,
    trimmed_start, words,
};

verus! {

// ---------------------------------------------------------------------------
// Tokens
// ---------------------------------------------------------------------------

/// A character that stands for itself in a rule, quoted or not.
pub open spec fn plain_char(c: char) -> bool {
    !is_blank(c) && c != '"' && c != '\\'
}

/// A word that stands for itself in a rule, quoted or not.
pub open spec fn plain_word(w: Seq<char>) -> bool {
    w.len() > 0 && forall|i: int| 0 <= i < w.len() ==> plain_char(#[trigger] w[i])
}

/// A text that stands for itself between quotes.
pub open spec fn quotable(s: Seq<char>) -> bool {
    forall|i: int| 0 <= i < s.len() ==> #[trigger] s[i] != '"' && s[i] != '\\'
}

/// The words, each followed by a space.
pub open spec fn spaced(ws: Seq<Seq<char>>) -> Seq<char>
    decreases ws.len(),
{
    if ws.len() == 0 {
        Seq::empty()
    } else {
        spaced(ws.drop_last()) + ws.last() + seq![' ']
    }
}

/// Between two tokens.
spec fn idle(done: Seq<Seq<char>>) -> Scan {
    Scan { done, cur: Seq::empty(), open: false, quoted: false, escaped: false }
}

/// At the end of a token, outside quotes.
spec fn within(done: Seq<Seq<char>>, cur: Seq<char>) -> Scan {
    Scan { done, cur, open: true, quoted: false, escaped: false }
}

proof fn lemma_scan_concat(st: Scan, a: Seq<char>, b: Seq<char>)
    ensures
        scan(st, a + b) == scan(scan(st, a), b),
    decreases b.len(),
{
    if b.len() == 0 {
        assert(a + b =~= a);
    } else {
        assert((a + b).drop_last() =~= a + b.drop_last());
        lemma_scan_concat(st, a, b.drop_last());
    }
}

proof fn lemma_scan_one(st: Scan, c: char)
    ensures
        scan(st, seq![c]) == scan_char(st, c),
{
    assert(seq![c].drop_last() =~= Seq::<char>::empty());
    assert(scan(st, seq![c].drop_last()) == st);
}

proof fn lemma_scan_word(done: Seq<Seq<char>>, w: Seq<char>)
    requires
        plain_word(w),
    ensures
        scan(idle(done), w) == within(done, w),
    decreases w.len(),
{
    let d = w.drop_last();
    assert(plain_char(w[w.len() - 1]));
    assert(d.push(w.last()) =~= w);
    if d.len() > 0 {
        assert forall|i: int| 0 <= i < d.len() implies plain_char(#[trigger] d[i]) by {
            assert(plain_char(w[i]));
        }
        lemma_scan_word(done, d);
    } else {
        assert(scan(idle(done), d) == idle(done));
        assert(Seq::<char>::empty().push(w.last()) =~= w);
    }
}

proof fn lemma_scan_space(done: Seq<Seq<char>>, cur: Seq<char>)
    ensures
        scan(within(done, cur), seq![' ']) == idle(done.push(cur)),
{
    lemma_scan_one(within(done, cur), ' ');
}

proof fn lemma_scan_spaced(done: Seq<Seq<char>>, ws: Seq<Seq<char>>)
    requires
        forall|k: int| 0 <= k < ws.len() ==> plain_word(#[trigger] ws[k]),
    ensures
        scan(idle(done), spaced(ws)) == idle(done + ws),
    decreases ws.len(),
{
    if ws.len() == 0 {
        assert(done + ws =~= done);
    } else {
        let d = ws.drop_last();
        let w = ws.last();
        assert forall|k: int| 0 <= k < d.len() implies plain_word(#[trigger] d[k]) by {
            assert(plain_word(ws[k]));
        }
        assert(plain_word(ws[ws.len() - 1]));
        lemma_scan_spaced(done, d);
        lemma_scan_concat(idle(done), spaced(d), w);
        lemma_scan_word(done + d, w);
        lemma_scan_concat(idle(done), spaced(d) + w, seq![' ']);
        lemma_scan_space(done + d, w);
        assert((done + d).push(w) =~= done + ws);
    }
}

proof fn lemma_scan_inside(done: Seq<Seq<char>>, s: Seq<char>)
    requires
        quotable(s),
    ensures
        scan(Scan { quoted: true, ..within(done, Seq::empty()) }, s) == (Scan {
            quoted: true,
            ..within(done, s)
        }),
    decreases s.len(),
{
    if s.len() == 0 {
        assert(s =~= Seq::<char>::empty());
    } else {
        let d = s.drop_last();
        assert forall|i: int| 0 <= i < d.len() implies #[trigger] d[i] != '"' && d[i] != '\\' by {
            assert(s[i] != '"');
        }
        lemma_scan_inside(done, d);
        assert(s[s.len() - 1] != '"' && s[s.len() - 1] != '\\');
        assert(d.push(s.last()) =~= s);
    }
}

/// A quoted text is one token.
proof fn lemma_scan_quoted(done: Seq<Seq<char>>, s: Seq<char>)
    requires
        quotable(s),
    ensures
        scan(idle(done), seq!['"'] + s + seq!['"']) == within(done, s),
{
    lemma_scan_one(idle(done), '"');
    lemma_scan_concat(idle(done), seq!['"'], s);
    lemma_scan_inside(done, s);
    lemma_scan_concat(idle(done), seq!['"'] + s, seq!['"']);
    lemma_scan_one(Scan { quoted: true, ..within(done, s) }, '"');
}

pub proof fn lemma_spaced_concat(a: Seq<Seq<char>>, b: Seq<Seq<char>>)
    ensures
        spaced(a + b) == spaced(a) + spaced(b),
    decreases b.len(),
{
    if b.len() == 0 {
        assert(a + b =~= a);
        assert(spaced(a) + spaced(b) =~= spaced(a));
    } else {
        assert((a + b).drop_last() =~= a + b.drop_last());
        lemma_spaced_concat(a, b.drop_last());
        assert(spaced(a + b) =~= spaced(a) + spaced(b));
    }
}

// ---------------------------------------------------------------------------
// One rule
// ---------------------------------------------------------------------------

/// `shown` is how a rule can show the comment `c`: in quotes, or bare where
/// that is one word.
pub open spec fn shows(shown: Seq<char>, c: Seq<char>) -> bool {
    ||| quotable(c) && shown == seq!['"'] + c + seq!['"']
    ||| plain_word(c) && shown == c
}

/// A token that says nothing about destination and comment.
pub open spec fn neutral(t: Seq<char>) -> bool {
    t != "-d"@ && t != "--comment"@
}

/// Words that say nothing about destination and comment.
pub open spec fn neutral_words(ws: Seq<Seq<char>>) -> bool {
    forall|k: int| 0 <= k < ws.len() ==> plain_word(#[trigger] ws[k]) && neutral(ws[k])
}

/// The words before the comment of a rule.
pub open spec fn rule_words(ip: Ipv4Addr, conditions: Seq<Seq<char>>) -> Seq<Seq<char>> {
    seq!["-d"@, addr_text(ip) + "/32"@] + conditions + seq!["-m"@, "comment"@, "--comment"@]
}

/// A rule without the chain it belongs to.
pub open spec fn rule_spec(
    ip: Ipv4Addr,
    conditions: Seq<Seq<char>>,
    shown: Seq<char>,
    target: Seq<char>,
) -> Seq<char> {
    spaced(rule_words(ip, conditions)) + shown + " -j "@ + target
}

/// A rule as one line of a listing.
pub open spec fn rule_line(
    chain: Seq<char>,
    ip: Ipv4Addr,
    conditions: Seq<Seq<char>>,
    shown: Seq<char>,
    target: Seq<char>,
) -> Seq<char> {
    rule_prefix(chain) + rule_spec(ip, conditions, shown, target)
}

proof fn lemma_keywords()
    ensures
        plain_word("-d"@),
        plain_word("-m"@),
        plain_word("comment"@),
        plain_word("--comment"@),
        plain_word("-j"@),
        neutral("-m"@),
        neutral("comment"@),
        neutral("-j"@),
        "-d"@ != "--comment"@,
        " -j "@ == seq![' '] + spaced(seq!["-j"@]),
{
    reveal_strlit("-d");
    reveal_strlit("-m");
    reveal_strlit("comment");
    reveal_strlit("--comment");
    reveal_strlit("-j");
    reveal_strlit(" -j ");
    reveal_with_fuel(spaced, 2);
    assert(seq!["-j"@].drop_last() =~= Seq::<Seq<char>>::empty());
    assert(" -j "@ =~= seq![' '] + spaced(seq!["-j"@]));
    assert("-m"@[1] != "-d"@[1]);
    assert("-j"@[1] != "-d"@[1]);
}

proof fn lemma_destination(ip: Ipv4Addr)
    ensures
        plain_word(addr_text(ip) + "/32"@),
        addr_value(pieces(addr_text(ip) + "/32"@, '/')[0]) == Some(ip),
{
    let a = addr_text(ip);
    let t = a + "/32"@;
    reveal_strlit("/32");
    lemma_addr_text_shape(ip);
    law_addr_round_trip(ip);
    assert forall|i: int| 0 <= i < t.len() implies plain_char(#[trigger] t[i]) by {
        if i < a.len() {
            assert(is_digit(a[i]) || a[i] == '.');
        }
    }
    let sep = equals('/');
    assert forall|i: int| 0 <= i < a.len() implies !#[trigger] sep(a[i]) by {
        assert(is_digit(a[i]) || a[i] == '.');
    }
    lemma_cut_whole(a, sep);
    assert(t =~= a + seq!['/'] + seq!['3', '2']);
    lemma_cut_at(a, '/', seq!['3', '2'], sep);
}

/// The tokens of words, a comment and a target.
pub proof fn lemma_line_tokens(
    ws: Seq<Seq<char>>,
    shown: Seq<char>,
    c: Seq<char>,
    target: Seq<char>,
)
    requires
        forall|k: int| 0 <= k < ws.len() ==> plain_word(#[trigger] ws[k]),
        shows(shown, c),
        plain_word(target),
    ensures
        tokens(spaced(ws) + shown + " -j "@ + target) == ws + seq![c, "-j"@, target],
{
    let none = Seq::<Seq<char>>::empty();
    lemma_keywords();
    lemma_scan_spaced(none, ws);
    assert(none + ws =~= ws);
    assert(scan_start() == idle(none));
    // the comment
    lemma_scan_concat(idle(none), spaced(ws), shown);
    if quotable(c) && shown == seq!['"'] + c + seq!['"'] {
        lemma_scan_quoted(ws, c);
    } else {
        lemma_scan_word(ws, c);
    }
    // the jump
    let at_comment = spaced(ws) + shown;
    lemma_scan_concat(idle(none), at_comment, seq![' ']);
    lemma_scan_space(ws, c);
    let jump = spaced(seq!["-j"@]);
    lemma_scan_concat(idle(none), at_comment + seq![' '], jump);
    lemma_scan_spaced(ws.push(c), seq!["-j"@]);
    // the target
    let all = at_comment + seq![' '] + jump;
    lemma_scan_concat(idle(none), all, target);
    lemma_scan_word(ws.push(c) + seq!["-j"@], target);
    assert(spaced(ws) + shown + " -j "@ + target =~= all + target);
    assert((ws.push(c) + seq!["-j"@]).push(target) =~= ws + seq![c, "-j"@, target]);
}

/// The tokens of a rule.
proof fn lemma_rule_tokens(
    ip: Ipv4Addr,
    conditions: Seq<Seq<char>>,
    shown: Seq<char>,
    c: Seq<char>,
    target: Seq<char>,
)
    requires
        neutral_words(conditions),
        shows(shown, c),
        plain_word(target),
    ensures
        tokens(rule_spec(ip, conditions, shown, target)) == rule_words(ip, conditions) + seq![
            c,
            "-j"@,
            target,
        ],
{
    lemma_rule_words(ip, conditions);
    lemma_line_tokens(rule_words(ip, conditions), shown, c, target);
}

/// The words before the comment are plain.
pub proof fn lemma_rule_words(ip: Ipv4Addr, conditions: Seq<Seq<char>>)
    requires
        neutral_words(conditions),
    ensures
        forall|k: int|
            0 <= k < rule_words(ip, conditions).len() ==> plain_word(
                #[trigger] rule_words(ip, conditions)[k],
            ),
{
    let ws = rule_words(ip, conditions);
    lemma_keywords();
    lemma_destination(ip);
    assert forall|k: int| 0 <= k < ws.len() implies plain_word(#[trigger] ws[k]) by {
        if 2 <= k < 2 + conditions.len() {
            assert(ws[k] == conditions[k - 2]);
        }
    }
}

proof fn lemma_read_neutral(
    a: Seq<Seq<char>>,
    rest: Seq<Seq<char>>,
    ip: Option<Ipv4Addr>,
    names: Set<Seq<char>>,
)
    requires
        forall|k: int| 0 <= k < a.len() ==> neutral(#[trigger] a[k]),
    ensures
        read_tokens(a + rest, ip, names) == read_tokens(rest, ip, names),
    decreases a.len(),
{
    if a.len() == 0 {
        assert(a + rest =~= rest);
    } else {
        let t = a + rest;
        assert(neutral(a[0]));
        assert(t[0] == a[0]);
        assert(t.skip(1) =~= a.skip(1) + rest);
        assert forall|k: int| 0 <= k < a.skip(1).len() implies neutral(#[trigger] a.skip(1)[k]) by {
            assert(neutral(a[k + 1]));
        }
        lemma_read_neutral(a.skip(1), rest, ip, names);
    }
}

/// The tokens of a rule say its destination and the names in its comment.
proof fn lemma_read_rule(
    ip: Ipv4Addr,
    conditions: Seq<Seq<char>>,
    c: Seq<char>,
    target: Seq<char>,
)
    requires
        neutral_words(conditions),
        neutral(target),
    ensures
        read_tokens(
            rule_words(ip, conditions) + seq![c, "-j"@, target],
            None,
            Set::empty(),
        ) == (Some(ip), words(c).to_set()),
{
    let toks = rule_words(ip, conditions) + seq![c, "-j"@, target];
    let dst = addr_text(ip) + "/32"@;
    lemma_keywords();
    lemma_destination(ip);
    let none = Set::<Seq<char>>::empty();
    assert(toks[0] == "-d"@ && toks[1] == dst);
    let before = conditions + seq!["-m"@, "comment"@];
    let tail = seq!["--comment"@, c, "-j"@, target];
    assert(toks.skip(2) =~= before + tail);
    assert forall|k: int| 0 <= k < before.len() implies neutral(#[trigger] before[k]) by {
        if k < conditions.len() {
            assert(before[k] == conditions[k]);
        }
    }
    lemma_read_neutral(before, tail, Some(ip), none);
    let last = seq!["-j"@, target];
    assert(tail.skip(2) =~= last);
    let names = none.union(words(c).to_set());
    assert(names =~= words(c).to_set());
    assert forall|k: int| 0 <= k < last.len() implies neutral(#[trigger] last[k]) by {}
    lemma_read_neutral(last, Seq::empty(), Some(ip), names);
    assert(last + Seq::<Seq<char>>::empty() =~= last);
}

/// Text without white space at either end is its own trimmed form.
proof fn lemma_trimmed_same(s: Seq<char>)
    requires
        s.len() > 0,
        !is_blank(s.first()),
        !is_blank(s.last()),
    ensures
        trimmed(s) == s,
{
    assert(trimmed_start(s) == s);
    assert(trimmed_end(s) == s);
}

/// A rule's line is read back as its destination and the names in its comment.
pub proof fn law_rule_round_trip(
    chain: Seq<char>,
    ip: Ipv4Addr,
    conditions: Seq<Seq<char>>,
    shown: Seq<char>,
    c: Seq<char>,
    target: Seq<char>,
)
    requires
        neutral_words(conditions),
        shows(shown, c),
        plain_word(target),
        neutral(target),
    ensures
        rule_in(rule_line(chain, ip, conditions, shown, target), chain) == Some(
            (ip, words(c).to_set()),
        ),
{
    let line = rule_line(chain, ip, conditions, shown, target);
    let body = rule_spec(ip, conditions, shown, target);
    reveal_strlit("-A ");
    assert(line.first() == '-');
    assert(line.last() == target.last());
    assert(plain_char(target[target.len() - 1]));
    lemma_trimmed_same(line);
    assert(rule_prefix(chain).is_prefix_of(line)) by {
        assert(line.subrange(0, rule_prefix(chain).len() as int) =~= rule_prefix(chain));
    }
    assert(line.skip(rule_prefix(chain).len() as int) =~= body);
    lemma_rule_tokens(ip, conditions, shown, c, target);
    lemma_read_rule(ip, conditions, c, target);
}

// ---------------------------------------------------------------------------
// Comments
// ---------------------------------------------------------------------------

/// Finitely many names, each a plain word.
pub open spec fn plain_names(names: Set<Seq<char>>) -> bool {
    names.finite() && forall|n: Seq<char>| #[trigger] names.contains(n) ==> plain_word(n)
}

/// Plain words, in a list.
spec fn plain_list(ns: Seq<Seq<char>>) -> bool {
    forall|k: int| 0 <= k < ns.len() ==> plain_word(#[trigger] ns[k])
}

proof fn lemma_ordered_plain(names: Set<Seq<char>>)
    requires
        plain_names(names),
    ensures
        plain_list(in_order(names, name_lt())),
        in_order(names, name_lt()).to_set() == names,
{
    let ns = in_order(names, name_lt());
    lemma_name_total();
    lemma_in_order_finite(names, name_lt());
    assert forall|k: int| 0 <= k < ns.len() implies plain_word(#[trigger] ns[k]) by {
        assert(ns.contains(ns[k]));
        assert(ns.to_set().contains(ns[k]));
    }
}

proof fn lemma_space()
    ensures
        " "@ == seq![' '],
{
    reveal_strlit(" ");
    assert(" "@ =~= seq![' ']);
}

/// The words of joined plain words are those words.
proof fn lemma_plain_words(ns: Seq<Seq<char>>)
    requires
        plain_list(ns),
    ensures
        words(joined(ns, seq![' '])) == ns,
{
    assert forall|k: int| 0 <= k < ns.len() implies (#[trigger] ns[k]).len() > 0 by {
        assert(plain_word(ns[k]));
    }
    assert forall|k: int, i: int|
        0 <= k < ns.len() && 0 <= i < ns[k].len() implies !is_blank(#[trigger] ns[k][i]) by {
        assert(plain_word(ns[k]));
        assert(plain_char(ns[k][i]));
    }
    lemma_words_joined(ns);
}

/// Joined plain words are quotable and end in no space.
proof fn lemma_joined_quotable(ns: Seq<Seq<char>>)
    requires
        plain_list(ns),
    ensures
        quotable(joined(ns, seq![' '])),
        ns.len() > 0 ==> joined(ns, seq![' ']).len() > 0 && !is_blank(joined(ns, seq![' ']).last()),
        forall|i: int|
            0 <= i < joined(ns, seq![' ']).len() ==> #[trigger] joined(ns, seq![' '])[i] != '\n',
    decreases ns.len(),
{
    if ns.len() > 0 {
        let w = ns.last();
        assert(plain_word(ns[ns.len() - 1]));
        assert(plain_char(w[w.len() - 1]));
        assert forall|i: int| 0 <= i < w.len() implies plain_char(#[trigger] w[i]) by {}
        let c = joined(ns, seq![' ']);
        if ns.len() > 1 {
            let d = ns.drop_last();
            assert forall|k: int| 0 <= k < d.len() implies plain_word(#[trigger] d[k]) by {
                assert(plain_word(ns[k]));
            }
            lemma_joined_quotable(d);
            let j = joined(d, seq![' ']);
            assert forall|i: int| 0 <= i < c.len() implies #[trigger] c[i] != '"' && c[i] != '\\'
                && c[i] != '\n' by {
                if i < j.len() {
                    assert(c[i] == j[i]);
                } else if i > j.len() {
                    assert(c[i] == w[i - j.len() - 1]);
                    assert(plain_char(w[i - j.len() - 1]));
                }
            }
        } else {
            assert(c == w);
        }
    }
}

/// A name without spaces.
pub open spec fn unbroken(n: Seq<char>) -> bool {
    forall|i: int| 0 <= i < n.len() ==> #[trigger] n[i] != ' '
}

/// Every space of joined names without spaces separates two of them.
pub proof fn lemma_space_separates(ns: Seq<Seq<char>>, p: int) -> (k: int)
    requires
        forall|k: int| 0 <= k < ns.len() ==> unbroken(#[trigger] ns[k]),
        0 <= p < joined(ns, seq![' ']).len(),
        joined(ns, seq![' '])[p] == ' ',
    ensures
        0 < k < ns.len(),
        joined(ns, seq![' ']).take(p) == joined(ns.take(k), seq![' ']),
    decreases ns.len(),
{
    let c = joined(ns, seq![' ']);
    let w = ns.last();
    assert(unbroken(ns[ns.len() - 1]));
    if ns.len() == 1 {
        assert(w[p] != ' ');
        assert(false);
        0
    } else {
        let d = ns.drop_last();
        let j = joined(d, seq![' ']);
        assert forall|k: int| 0 <= k < d.len() implies unbroken(#[trigger] d[k]) by {
            assert(unbroken(ns[k]));
        }
        if p < j.len() {
            let k = lemma_space_separates(d, p);
            assert(c.take(p) =~= j.take(p));
            assert(ns.take(k) =~= d.take(k));
            k
        } else {
            if p > j.len() {
                assert(c[p] == w[p - j.len() - 1]);
                assert(w[p - j.len() - 1] != ' ');
            }
            assert(c.take(p) =~= j);
            assert(ns.take(ns.len() - 1) =~= d);
            ns.len() - 1
        }
    }
}

/// Longer texts have more bytes.
pub proof fn lemma_byte_len_monotone(s: Seq<char>, m: int)
    requires
        0 <= m <= s.len(),
    ensures
        byte_len(s.take(m)) <= byte_len(s),
    decreases s.len() - m,
{
    if m < s.len() {
        lemma_byte_len_monotone(s, m + 1);
        assert(s.take(m + 1) =~= s.take(m).push(s[m]));
        lemma_byte_len_push(s.take(m), s[m]);
    } else {
        assert(s.take(m) =~= s);
    }
}

/// `fitting` is the longest prefix that fits.
pub proof fn lemma_fitting(s: Seq<char>, n: nat) -> (m: int)
    ensures
        0 <= m <= s.len(),
        fitting(s, n) == s.take(m),
        byte_len(fitting(s, n)) <= n,
        forall|q: int| 0 <= q <= s.len() && byte_len(#[trigger] s.take(q)) <= n ==> q <= m,
    decreases s.len(),
{
    assert(s.take(s.len() as int) =~= s);
    if byte_len(s) <= n || s.len() == 0 {
        if s.len() == 0 {
            assert(s =~= Seq::<char>::empty());
            reveal_with_fuel(vstd::utf8::encode_utf8, 1);
            assert(byte_len(s) == 0);
        }
        s.len() as int
    } else {
        let d = s.drop_last();
        let m = lemma_fitting(d, n);
        assert(d.take(m) =~= s.take(m));
        assert forall|q: int| 0 <= q <= s.len() && byte_len(#[trigger] s.take(q)) <= n implies q
            <= m by {
            assert(q < s.len());
            assert(d.take(q) =~= s.take(q));
            assert(byte_len(d.take(q)) <= n);
        }
        m
    }
}

/// `before_last_space` ends right before a space, or is everything.
pub proof fn lemma_before_last_space(s: Seq<char>) -> (p: int)
    ensures
        0 <= p <= s.len(),
        before_last_space(s) == s.take(p),
        s.contains(' ') ==> p < s.len() && s[p] == ' ',
        !s.contains(' ') ==> p == s.len(),
        forall|q: int| p < q < s.len() ==> #[trigger] s[q] != ' ',
    decreases s.len(),
{
    if !s.contains(' ') {
        assert(s.take(s.len() as int) =~= s);
        s.len() as int
    } else {
        let d = s.drop_last();
        if s.last() == ' ' {
            assert(d =~= s.take(s.len() - 1));
            s.len() - 1
        } else {
            let i = choose|i: int| 0 <= i < s.len() && s[i] == ' ';
            assert(d[i] == ' ');
            assert(d.contains(' '));
            let p = lemma_before_last_space(d);
            assert(d.take(p) =~= s.take(p));
            assert forall|q: int| p < q < s.len() implies #[trigger] s[q] != ' ' by {
                if q < d.len() {
                    assert(d[q] != ' ');
                }
            }
            p
        }
    }
}

/// A comment never exceeds its limit.
pub proof fn law_comment_is_bounded(names: Set<Seq<char>>)
    ensures
        byte_len(comment_text(names)) <= MAX_COMMENT_LEN,
{
    let c = full_comment(names);
    if byte_len(c) > MAX_COMMENT_LEN {
        let m = lemma_fitting(c, MAX_COMMENT_LEN as nat);
        let f = fitting(c, MAX_COMMENT_LEN as nat);
        let p = lemma_before_last_space(f);
        lemma_byte_len_monotone(f, p);
    }
}

/// A comment holds whole names only, with single spaces between them: the
/// first ones in ascending order, at least one, and all of them if they fit.
/// Only the first name has to fit by itself.
pub proof fn law_comment_keeps_whole_names(names: Set<Seq<char>>)
    requires
        names.finite(),
        names.len() > 0,
        forall|n: Seq<char>| #[trigger] names.contains(n) ==> unbroken(n),
        byte_len(in_order(names, name_lt())[0]) <= MAX_COMMENT_LEN,
    ensures
        pieces(comment_text(names), ' ').len() > 0,
        pieces(comment_text(names), ' ').is_prefix_of(in_order(names, name_lt())),
        comment_text(names) == joined(pieces(comment_text(names), ' '), " "@),
        byte_len(full_comment(names)) <= MAX_COMMENT_LEN ==> pieces(comment_text(names), ' ')
            == in_order(names, name_lt()),
{
    let ns = in_order(names, name_lt());
    let c = full_comment(names);
    let sp = seq![' '];
    lemma_space();
    lemma_name_total();
    lemma_in_order_finite(names, name_lt());
    assert forall|i: int| 0 <= i < ns.len() implies unbroken(#[trigger] ns[i]) by {
        assert(ns.contains(ns[i]));
        assert(ns.to_set().contains(ns[i]));
    }
    let k = if byte_len(c) <= MAX_COMMENT_LEN {
        assert(ns.take(ns.len() as int) =~= ns);
        ns.len() as int
    } else {
        let n = MAX_COMMENT_LEN as nat;
        let m = lemma_fitting(c, n);
        let f = c.take(m);
        let p = lemma_before_last_space(f);
        let first = ns[0];
        lemma_first_part(ns);
        assert(c.take(first.len() as int) == first);
        assert(first.len() <= m);
        if f.contains(' ') {
            assert(f[p] == c[p]);
            assert(f.take(p) =~= c.take(p));
            lemma_space_separates(ns, p)
        } else {
            if m > first.len() {
                assert(ns.len() > 1);
                assert(c[first.len() as int] == ' ');
                assert(f[first.len() as int] == ' ');
                assert(f.contains(' '));
            }
            assert(f == first);
            assert(ns.take(1) =~= seq![first]);
            assert(joined(ns.take(1), sp) == first);
            assert(f.take(p) =~= f);
            1
        }
    };
    let kept = ns.take(k);
    assert(comment_text(names) == joined(kept, sp));
    assert forall|j: int, i: int|
        0 <= j < kept.len() && 0 <= i < kept[j].len() implies !#[trigger] equals(' ')(kept[j][i]) by {
        assert(unbroken(ns[j]));
        assert(kept[j][i] == ns[j][i]);
    }
    lemma_cut_joined(kept, ' ', equals(' '));
}

/// Joined words begin with the first of them, and go on with the separator.
pub proof fn lemma_first_part(ns: Seq<Seq<char>>)
    requires
        ns.len() > 0,
    ensures
        joined(ns, seq![' ']).len() >= ns[0].len(),
        joined(ns, seq![' ']).take(ns[0].len() as int) == ns[0],
        ns.len() == 1 ==> joined(ns, seq![' ']) == ns[0],
        ns.len() > 1 ==> joined(ns, seq![' ']).len() > ns[0].len() && joined(
            ns,
            seq![' '],
        )[ns[0].len() as int] == ' ',
    decreases ns.len(),
{
    let c = joined(ns, seq![' ']);
    if ns.len() == 1 {
        assert(c.take(ns[0].len() as int) =~= ns[0]);
    } else {
        let d = ns.drop_last();
        lemma_first_part(d);
        let j = joined(d, seq![' ']);
        assert(c.take(ns[0].len() as int) =~= j.take(ns[0].len() as int));
    }
}

// ---------------------------------------------------------------------------
// Lines
// ---------------------------------------------------------------------------

/// The lines, each followed by a line feed.
pub open spec fn lines_text(ls: Seq<Seq<char>>) -> Seq<char>
    decreases ls.len(),
{
    if ls.len() == 0 {
        Seq::empty()
    } else {
        lines_text(ls.drop_last()) + ls.last() + "\n"@
    }
}

/// A text on one line.
pub open spec fn one_line(s: Seq<char>) -> bool {
    forall|i: int| 0 <= i < s.len() ==> #[trigger] s[i] != '\n'
}

pub proof fn lemma_lines_concat(a: Seq<Seq<char>>, b: Seq<Seq<char>>)
    ensures
        lines_text(a + b) == lines_text(a) + lines_text(b),
    decreases b.len(),
{
    if b.len() == 0 {
        assert(a + b =~= a);
        assert(lines_text(a) + lines_text(b) =~= lines_text(a));
    } else {
        assert((a + b).drop_last() =~= a + b.drop_last());
        lemma_lines_concat(a, b.drop_last());
        assert(lines_text(a + b) =~= lines_text(a) + lines_text(b));
    }
}

/// Cutting at line feeds gives the lines back, and an empty rest.
pub proof fn lemma_lines_cut(ls: Seq<Seq<char>>)
    requires
        forall|k: int| 0 <= k < ls.len() ==> one_line(#[trigger] ls[k]),
    ensures
        pieces(lines_text(ls), '\n') == ls.push(Seq::empty()),
    decreases ls.len(),
{
    let sep = equals('\n');
    if ls.len() == 0 {
        assert(ls.push(Seq::empty()) =~= seq![Seq::<char>::empty()]);
    } else {
        let d = ls.drop_last();
        let l = ls.last();
        assert forall|k: int| 0 <= k < d.len() implies one_line(#[trigger] d[k]) by {
            assert(one_line(ls[k]));
        }
        lemma_lines_cut(d);
        reveal_strlit("\n");
        let t = lines_text(d) + l;
        assert(lines_text(ls) =~= t + seq!['\n'] + Seq::<char>::empty());
        lemma_cut_at(t, '\n', Seq::empty(), sep);
        assert(cut(Seq::<char>::empty(), sep) =~= seq![Seq::<char>::empty()]);
        // the last line belongs to the piece after the last line feed
        assert(one_line(ls[ls.len() - 1]));
        lemma_cut_extend(lines_text(d), l, sep);
        let head = cut(lines_text(d), sep);
        assert(head.drop_last() =~= d);
        assert(head.last() + l =~= l);
        assert(cut(t, sep) =~= d.push(l));
        assert(d.push(l) =~= ls);
        assert(pieces(lines_text(ls), '\n') =~= ls.push(Seq::empty()));
    }
}

/// Text without a separator goes to the last piece.
proof fn lemma_cut_extend(s: Seq<char>, t: Seq<char>, sep: spec_fn(char) -> bool)
    requires
        forall|i: int| 0 <= i < t.len() ==> !sep(#[trigger] t[i]),
    ensures
        cut(s, sep).len() > 0,
        cut(s + t, sep) == cut(s, sep).drop_last().push(cut(s, sep).last() + t),
    decreases t.len(),
{
    lemma_cut_nonempty(s, sep);
    let head = cut(s, sep);
    if t.len() == 0 {
        assert(s + t =~= s);
        assert(head.last() + t =~= head.last());
        assert(head.drop_last().push(head.last()) =~= head);
    } else {
        let d = t.drop_last();
        assert forall|i: int| 0 <= i < d.len() implies !sep(#[trigger] d[i]) by {
            assert(!sep(t[i]));
        }
        lemma_cut_extend(s, d, sep);
        assert((s + t).drop_last() =~= s + d);
        assert(!sep(t[t.len() - 1]));
        let mid = head.drop_last().push(head.last() + d);
        assert(mid.drop_last() =~= head.drop_last());
        assert((head.last() + d).push(t.last()) =~= head.last() + t);
    }
}

// ---------------------------------------------------------------------------
// Whole chains
// ---------------------------------------------------------------------------

/// What a chain's rules can store in full: finitely many addresses, each with
/// plain names whose comment fits.
pub open spec fn storable(m: AddrNames) -> bool {
    &&& m.dom().finite()
    &&& forall|ip: Ipv4Addr| #[trigger]
        m.contains_key(ip) ==> plain_names(m[ip]) && byte_len(full_comment(m[ip]))
            <= MAX_COMMENT_LEN
}

/// One rule per address, in ascending order of address.
pub open spec fn rules_in(m: AddrNames) -> Seq<Rule> {
    in_order(m.dom(), addr_lt()).map_values(|ip: Ipv4Addr| (ip, m[ip]))
}

/// A chain as read back that holds one rule per address of `m` and nothing
/// else.
pub open spec fn read_back(m: AddrNames) -> ChainView {
    ChainView { rules: rules_in(m), rule_lines: m.dom().len() }
}

/// The rules of a map are that map again.
pub proof fn lemma_rules_in(m: AddrNames)
    requires
        m.dom().finite(),
    ensures
        rules_map(rules_in(m)) == m,
        rules_in(m).len() == m.dom().len(),
        one_rule_each(read_back(m)),
        forall|i: int|
            0 <= i < rules_in(m).len() ==> m.contains_key((#[trigger] rules_in(m)[i]).0)
                && rules_in(m)[i].1 == m[rules_in(m)[i].0],
{
    let keys = in_order(m.dom(), addr_lt());
    let rules = rules_in(m);
    lemma_addr_order();
    lemma_in_order_finite(m.dom(), addr_lt());
    assert forall|i: int| 0 <= i < rules.len() implies m.contains_key((#[trigger] rules[i]).0)
        && rules[i].1 == m[rules[i].0] by {
        assert(keys.contains(keys[i]));
        assert(keys.to_set().contains(keys[i]));
    }
    assert forall|i: int, j: int| 0 <= i < j < rules.len() implies (#[trigger] rules[i]).0 != (
    #[trigger] rules[j]).0 by {
        assert(addr_lt()(keys[i], keys[j]));
    }
    let r = rules_map(rules);
    assert forall|ip: Ipv4Addr| r.contains_key(ip) <==> m.contains_key(ip) by {
        if m.contains_key(ip) {
            assert(keys.to_set().contains(ip));
            let i = choose|i: int| 0 <= i < keys.len() && keys[i] == ip;
            assert(rules[i].0 == ip);
        }
    }
    assert(r.dom() =~= m.dom());
    assert forall|ip: Ipv4Addr| r.contains_key(ip) implies r[ip] == m[ip] by {
        assert(keys.to_set().contains(ip));
        let k = choose|k: int| 0 <= k < keys.len() && keys[k] == ip;
        assert(rules[k].0 == ip);
        assert forall|n: Seq<char>| r[ip].contains(n) <==> m[ip].contains(n) by {
            if m[ip].contains(n) {
                assert(rules[k].1.contains(n));
            }
        }
        assert(r[ip] =~= m[ip]);
    }
    assert(r =~= m);
}

/// Reading the lines of one chain.
pub open spec fn reads(chain: Seq<char>) -> spec_fn(Seq<char>) -> Option<Rule> {
    |line: Seq<char>| rule_in(line, chain)
}

pub open spec fn counts(chain: Seq<char>) -> spec_fn(Seq<char>) -> bool {
    |line: Seq<char>| is_rule_line(line, chain)
}

proof fn lemma_read_concat(a: Seq<Seq<char>>, b: Seq<Seq<char>>, chain: Seq<char>)
    ensures
        (a + b).filter_map(reads(chain)) == a.filter_map(reads(chain)) + b.filter_map(
            reads(chain),
        ),
        (a + b).filter(counts(chain)).len() == a.filter(counts(chain)).len() + b.filter(
            counts(chain),
        ).len(),
    decreases b.len(),
{
    reveal(Seq::filter);
    if b.len() == 0 {
        assert(a + b =~= a);
        assert(a.filter_map(reads(chain)) + b.filter_map(reads(chain)) =~= a.filter_map(
            reads(chain),
        ));
    } else {
        assert((a + b).drop_last() =~= a + b.drop_last());
        lemma_read_concat(a, b.drop_last(), chain);
        assert((a + b).filter_map(reads(chain)) =~= a.filter_map(reads(chain)) + b.filter_map(
            reads(chain),
        ));
    }
}

/// Lines that hold no rule of `chain` add nothing.
proof fn lemma_read_others(ls: Seq<Seq<char>>, chain: Seq<char>)
    requires
        forall|k: int| 0 <= k < ls.len() ==> !is_rule_line(#[trigger] ls[k], chain),
    ensures
        ls.filter_map(reads(chain)) == Seq::<Rule>::empty(),
        ls.filter(counts(chain)).len() == 0,
    decreases ls.len(),
{
    reveal(Seq::filter);
    if ls.len() > 0 {
        let d = ls.drop_last();
        assert forall|k: int| 0 <= k < d.len() implies !is_rule_line(#[trigger] d[k], chain) by {
            assert(!is_rule_line(ls[k], chain));
        }
        lemma_read_others(d, chain);
        assert(!is_rule_line(ls[ls.len() - 1], chain));
    }
}

/// Lines that each hold a rule give those rules.
proof fn lemma_read_rules(ls: Seq<Seq<char>>, rules: Seq<Rule>, chain: Seq<char>)
    requires
        ls.len() == rules.len(),
        forall|k: int| 0 <= k < ls.len() ==> rule_in(#[trigger] ls[k], chain) == Some(rules[k]),
    ensures
        ls.filter_map(reads(chain)) == rules,
        ls.filter(counts(chain)).len() == rules.len(),
    decreases ls.len(),
{
    reveal(Seq::filter);
    if ls.len() > 0 {
        let d = ls.drop_last();
        let r = rules.drop_last();
        assert forall|k: int| 0 <= k < d.len() implies rule_in(#[trigger] d[k], chain) == Some(
            r[k],
        ) by {
            assert(rule_in(ls[k], chain) == Some(rules[k]));
        }
        lemma_read_rules(d, r, chain);
        assert(rule_in(ls[ls.len() - 1], chain) == Some(rules[ls.len() - 1]));
        assert(r.push(rules.last()) =~= rules);
        assert(ls.filter_map(reads(chain)) =~= rules);
    } else {
        assert(rules =~= Seq::<Rule>::empty());
    }
}

/// The lines of a chain's rules.
pub open spec fn rule_lines(
    chain: Seq<char>,
    m: AddrNames,
    conditions: Seq<Seq<char>>,
    shown: Seq<Seq<char>>,
    target: Seq<char>,
) -> Seq<Seq<char>> {
    Seq::new(
        in_order(m.dom(), addr_lt()).len(),
        |i: int|
            rule_line(chain, in_order(m.dom(), addr_lt())[i], conditions, shown[i], target),
    )
}

/// Each rule shows its comment.
pub open spec fn shows_comments(shown: Seq<Seq<char>>, m: AddrNames) -> bool {
    let keys = in_order(m.dom(), addr_lt());
    shown.len() == keys.len() && forall|i: int|
        0 <= i < keys.len() ==> shows(#[trigger] shown[i], comment_text(m[keys[i]]))
}

pub proof fn lemma_one_line_concat(a: Seq<char>, b: Seq<char>)
    requires
        one_line(a),
        one_line(b),
    ensures
        one_line(a + b),
{
    let c = a + b;
    assert forall|i: int| 0 <= i < c.len() implies #[trigger] c[i] != '\n' by {
        if i < a.len() {
            assert(c[i] == a[i]);
        } else {
            assert(c[i] == b[i - a.len()]);
        }
    }
}

proof fn lemma_plain_one_line(w: Seq<char>)
    requires
        plain_word(w),
    ensures
        one_line(w),
{
    assert forall|i: int| 0 <= i < w.len() implies #[trigger] w[i] != '\n' by {
        assert(plain_char(w[i]));
    }
}

proof fn lemma_spaced_one_line(ws: Seq<Seq<char>>)
    requires
        forall|k: int| 0 <= k < ws.len() ==> plain_word(#[trigger] ws[k]),
    ensures
        one_line(spaced(ws)),
    decreases ws.len(),
{
    if ws.len() > 0 {
        let d = ws.drop_last();
        assert forall|k: int| 0 <= k < d.len() implies plain_word(#[trigger] d[k]) by {
            assert(plain_word(ws[k]));
        }
        lemma_spaced_one_line(d);
        assert(plain_word(ws[ws.len() - 1]));
        lemma_plain_one_line(ws.last());
        lemma_one_line_concat(spaced(d), ws.last());
        lemma_one_line_concat(spaced(d) + ws.last(), seq![' ']);
    }
}

pub proof fn lemma_chain_plain(chain: Seq<char>)
    requires
        valid_chain_name(chain),
    ensures
        plain_word(chain),
        one_line(chain),
{
    assert forall|i: int| 0 <= i < chain.len() implies plain_char(#[trigger] chain[i]) by {
        assert(is_alnum(chain[i]) || chain[i] == '_' || chain[i] == '-');
    }
    lemma_plain_one_line(chain);
}

/// A comment of plain names, however long, stands for itself between quotes and
/// is on one line.
pub proof fn lemma_comment_plain(names: Set<Seq<char>>)
    requires
        plain_names(names),
    ensures
        quotable(comment_text(names)),
        one_line(comment_text(names)),
{
    let c = full_comment(names);
    lemma_space();
    lemma_ordered_plain(names);
    lemma_joined_quotable(in_order(names, name_lt()));
    if byte_len(c) > MAX_COMMENT_LEN {
        let m = lemma_fitting(c, MAX_COMMENT_LEN as nat);
        let p = lemma_before_last_space(c.take(m));
        let t = comment_text(names);
        assert(t =~= c.take(p));
        assert forall|i: int| 0 <= i < t.len() implies #[trigger] t[i] != '"' && t[i] != '\\'
            && t[i] != '\n' by {
            assert(t[i] == c[i]);
            assert(c[i] != '"' && c[i] != '\\' && c[i] != '\n');
        }
    }
}

/// A rule is on one line if its comment is.
pub proof fn lemma_rule_one_line(
    chain: Seq<char>,
    ip: Ipv4Addr,
    conditions: Seq<Seq<char>>,
    shown: Seq<char>,
    target: Seq<char>,
)
    requires
        valid_chain_name(chain),
        neutral_words(conditions),
        one_line(shown),
        plain_word(target),
    ensures
        one_line(rule_line(chain, ip, conditions, shown, target)),
{
    let ws = rule_words(ip, conditions);
    reveal_strlit("-A ");
    reveal_strlit(" ");
    reveal_strlit(" -j ");
    lemma_chain_plain(chain);
    lemma_rule_words(ip, conditions);
    lemma_spaced_one_line(ws);
    lemma_plain_one_line(target);
    lemma_one_line_concat(spaced(ws), shown);
    lemma_one_line_concat(spaced(ws) + shown, " -j "@);
    lemma_one_line_concat(spaced(ws) + shown + " -j "@, target);
    lemma_one_line_concat("-A "@, chain);
    lemma_one_line_concat("-A "@ + chain, " "@);
    lemma_one_line_concat(rule_prefix(chain), rule_spec(ip, conditions, shown, target));
}

/// The lines of a chain's rules are lines and give its rules.
pub proof fn lemma_rule_lines(
    chain: Seq<char>,
    m: AddrNames,
    conditions: Seq<Seq<char>>,
    shown: Seq<Seq<char>>,
    target: Seq<char>,
)
    requires
        valid_chain_name(chain),
        storable(m),
        neutral_words(conditions),
        shows_comments(shown, m),
        plain_word(target),
        neutral(target),
    ensures
        rule_lines(chain, m, conditions, shown, target).filter_map(reads(chain)) == rules_in(m),
        rule_lines(chain, m, conditions, shown, target).filter(counts(chain)).len()
            == m.dom().len(),
        forall|k: int|
            0 <= k < rule_lines(chain, m, conditions, shown, target).len() ==> one_line(
                #[trigger] rule_lines(chain, m, conditions, shown, target)[k],
            ),
{
    let ls = rule_lines(chain, m, conditions, shown, target);
    let keys = in_order(m.dom(), addr_lt());
    lemma_rules_in(m);
    lemma_chain_plain(chain);
    lemma_keywords();
    reveal_strlit("-A ");
    reveal_strlit(" ");
    reveal_strlit(" -j ");
    assert forall|k: int| 0 <= k < ls.len() implies rule_in(#[trigger] ls[k], chain) == Some(
        rules_in(m)[k],
    ) && one_line(ls[k]) by {
        let ip = keys[k];
        let c = comment_text(m[ip]);
        assert(rules_in(m)[k] == (ip, m[ip]));
        assert(m.contains_key(ip));
        assert(shows(shown[k], c));
        law_rule_round_trip(chain, ip, conditions, shown[k], c, target);
        lemma_space();
        lemma_ordered_plain(m[ip]);
        lemma_plain_words(in_order(m[ip], name_lt()));
        lemma_joined_quotable(in_order(m[ip], name_lt()));
        assert(one_line(c));
        let ws = rule_words(ip, conditions);
        lemma_destination(ip);
        assert forall|j: int| 0 <= j < ws.len() implies plain_word(#[trigger] ws[j]) by {
            if 2 <= j < 2 + conditions.len() {
                assert(ws[j] == conditions[j - 2]);
            }
        }
        lemma_spaced_one_line(ws);
        if shown[k] != c {
            lemma_one_line_concat(seq!['"'], c);
            lemma_one_line_concat(seq!['"'] + c, seq!['"']);
        }
        lemma_plain_one_line(target);
        lemma_one_line_concat(spaced(ws), shown[k]);
        lemma_one_line_concat(spaced(ws) + shown[k], " -j "@);
        lemma_one_line_concat(spaced(ws) + shown[k] + " -j "@, target);
        lemma_one_line_concat("-A "@, chain);
        lemma_one_line_concat("-A "@ + chain, " "@);
        lemma_one_line_concat(rule_prefix(chain), rule_spec(ip, conditions, shown[k], target));
    }
    lemma_addr_order();
    lemma_in_order_finite(m.dom(), addr_lt());
    lemma_read_rules(ls, rules_in(m), chain);
}

/// A line that begins and ends with something other than white space, and
/// begins otherwise than a rule.
proof fn lemma_no_rule(line: Seq<char>, chain: Seq<char>)
    requires
        line.len() > 0 ==> !is_blank(line.first()) && !is_blank(line.last()),
        line.len() > 1 ==> line[0] != '-' || line[1] != 'A',
    ensures
        !is_rule_line(line, chain),
{
    reveal_strlit("-A ");
    let p = rule_prefix(chain);
    let b = bare_rule(chain);
    assert(p[0] == '-' && p[1] == 'A');
    assert(b[0] == '-' && b[1] == 'A');
    if line.len() > 0 {
        lemma_trimmed_same(line);
    } else {
        assert(trimmed(line) == line);
    }
    if p.is_prefix_of(line) {
        assert(line.subrange(0, p.len() as int)[0] == p[0]);
        assert(line.subrange(0, p.len() as int)[1] == p[1]);
    }
}

/// A rule of one chain is no rule of another.
proof fn lemma_other_chain(
    chain: Seq<char>,
    other: Seq<char>,
    ip: Ipv4Addr,
    conditions: Seq<Seq<char>>,
    shown: Seq<char>,
    target: Seq<char>,
)
    requires
        valid_chain_name(chain),
        valid_chain_name(other),
        chain != other,
        plain_word(target),
    ensures
        !is_rule_line(rule_line(other, ip, conditions, shown, target), chain),
{
    let line = rule_line(other, ip, conditions, shown, target);
    let p = rule_prefix(chain);
    let b = bare_rule(chain);
    reveal_strlit("-A ");
    reveal_strlit(" ");
    lemma_chain_plain(chain);
    lemma_chain_plain(other);
    assert(line.first() == '-');
    assert(line.last() == target.last());
    assert(plain_char(target[target.len() - 1]));
    lemma_trimmed_same(line);
    if line == b {
        let k = other.len() as int;
        assert(line[3 + k] == ' ');
        assert(b[3 + k] == chain[k]);
        assert(plain_char(chain[k]));
    }
    if p.is_prefix_of(line) {
        assert forall|i: int| 0 <= i < p.len() implies #[trigger] p[i] == line[i] by {
            assert(line.subrange(0, p.len() as int)[i] == p[i]);
        }
        let n = chain.len() as int;
        let k = other.len() as int;
        assert(p[3 + n] == ' ');
        assert(line[3 + k] == ' ');
        if n < k {
            assert(p[3 + n] == line[3 + n]);
            assert(line[3 + n] == other[n]);
            assert(plain_char(other[n]));
        } else if n > k {
            assert(p[3 + k] == line[3 + k]);
            assert(p[3 + k] == chain[k]);
            assert(plain_char(chain[k]));
        } else {
            assert forall|i: int| 0 <= i < n implies chain[i] == other[i] by {
                assert(p[3 + i] == line[3 + i]);
                assert(p[3 + i] == chain[i]);
                assert(line[3 + i] == other[i]);
            }
            assert(chain =~= other);
        }
    }
}

/// Listing a chain as `iptables -S` prints it (its name, then one rule per
/// line, with any further matches and the comment in quotes or bare) gives
/// back what the chain stores: every address with all its names, and as many
/// rules as addresses.
pub proof fn law_listing_round_trip(
    chain: Seq<char>,
    m: AddrNames,
    conditions: Seq<Seq<char>>,
    shown: Seq<Seq<char>>,
    target: Seq<char>,
)
    requires
        valid_chain_name(chain),
        storable(m),
        neutral_words(conditions),
        shows_comments(shown, m),
        plain_word(target),
        neutral(target),
    ensures
        ({
            let output = lines_text(
                seq!["-N "@ + chain] + rule_lines(chain, m, conditions, shown, target),
            );
            &&& listed_rules(output, chain) == rules_in(m)
            &&& rule_count(output, chain) == m.dom().len()
            &&& rules_map(listed_rules(output, chain)) == m
        }),
{
    let rules = rule_lines(chain, m, conditions, shown, target);
    let head = seq!["-N "@ + chain];
    let ls = head + rules;
    lemma_rule_lines(chain, m, conditions, shown, target);
    lemma_rules_in(m);
    lemma_chain_plain(chain);
    reveal_strlit("-N ");
    lemma_one_line_concat("-N "@, chain);
    assert forall|k: int| 0 <= k < ls.len() implies one_line(#[trigger] ls[k]) by {
        if k > 0 {
            assert(ls[k] == rules[k - 1]);
        }
    }
    lemma_lines_cut(ls);
    let rest = seq![Seq::<char>::empty()];
    assert(ls.push(Seq::empty()) =~= ls + rest);
    assert(plain_char(chain[chain.len() - 1]));
    assert(head[0].last() == chain.last());
    lemma_no_rule(head[0], chain);
    lemma_no_rule(rest[0], chain);
    lemma_read_others(head, chain);
    lemma_read_others(rest, chain);
    lemma_read_concat(head, rules, chain);
    lemma_read_concat(ls, rest, chain);
    let output = lines_text(ls);
    assert(listed_rules(output, chain) =~= rules_in(m));
    assert(counts(chain) == (|line: Seq<char>| is_rule_line(line, chain)));
}

// ---------------------------------------------------------------------------
// The restore batch
// ---------------------------------------------------------------------------

/// The words of an accept rule's further matches, as they are written.
pub open spec fn accept_words(port: nat) -> Seq<Seq<char>> {
    seq!["-p"@, "tcp"@, "--dport"@, numeral(port), "-m"@, "conntrack"@, "--ctstate"@, "NEW"@]
}

/// The words of an accept rule's further matches, as `iptables -S` lists them.
pub open spec fn listed_accept_words(port: nat) -> Seq<Seq<char>> {
    seq![
        "-p"@,
        "tcp"@,
        "-m"@,
        "tcp"@,
        "--dport"@,
        numeral(port),
        "-m"@,
        "conntrack"@,
        "--ctstate"@,
        "NEW"@,
    ]
}

pub proof fn lemma_accept_words(port: nat)
    ensures
        neutral_words(accept_words(port)),
        neutral_words(listed_accept_words(port)),
        accept_conditions(port) == spaced(accept_words(port)),
{
    reveal_strlit("-p");
    reveal_strlit("tcp");
    reveal_strlit("--dport");
    reveal_strlit("-m");
    reveal_strlit("conntrack");
    reveal_strlit("--ctstate");
    reveal_strlit("NEW");
    reveal_strlit("-d");
    reveal_strlit("--comment");
    reveal_strlit("-p tcp --dport ");
    reveal_strlit(" -m conntrack --ctstate NEW ");
    let n = numeral(port);
    lemma_numeral_digits(port);
    assert(plain_word(n)) by {
        assert forall|i: int| 0 <= i < n.len() implies plain_char(#[trigger] n[i]) by {
            assert(is_digit(n[i]));
        }
    }
    assert(neutral(n)) by {
        assert(is_digit(n[0]));
        assert(n[0] != "-d"@[0] && n[0] != "--comment"@[0]);
    }
    assert("-p"@[1] != "-d"@[1] && "-m"@[1] != "-d"@[1]);
    assert("--dport"@[2] != "--comment"@[2]);
    assert("--ctstate"@[3] != "--comment"@[3]);
    let ws = accept_words(port);
    reveal_with_fuel(spaced, 9);
    assert(ws.take(0) =~= Seq::<Seq<char>>::empty());
    assert(ws.drop_last() =~= ws.take(7));
    assert(ws.take(7).drop_last() =~= ws.take(6));
    assert(ws.take(6).drop_last() =~= ws.take(5));
    assert(ws.take(5).drop_last() =~= ws.take(4));
    assert(ws.take(4).drop_last() =~= ws.take(3));
    assert(ws.take(3).drop_last() =~= ws.take(2));
    assert(ws.take(2).drop_last() =~= ws.take(1));
    assert(ws.take(1).drop_last() =~= ws.take(0));
    assert(spaced(ws.take(3)) =~= "-p tcp --dport "@);
    assert(spaced(ws) =~= accept_conditions(port));
}

pub proof fn lemma_targets()
    ensures
        plain_word("ACCEPT"@),
        neutral("ACCEPT"@),
        plain_word("DROP"@),
        neutral("DROP"@),
{
    reveal_strlit("ACCEPT");
    reveal_strlit("DROP");
    reveal_strlit("-d");
    reveal_strlit("--comment");
    assert("ACCEPT"@[0] != "-d"@[0] && "ACCEPT"@[0] != "--comment"@[0]);
    assert("DROP"@[0] != "-d"@[0] && "DROP"@[0] != "--comment"@[0]);
}

/// Every rule's comment, in quotes.
pub open spec fn quoted_comments(m: AddrNames) -> Seq<Seq<char>> {
    in_order(m.dom(), addr_lt()).map_values(
        |ip: Ipv4Addr| seq!['"'] + comment_text(m[ip]) + seq!['"'],
    )
}

proof fn lemma_rule_text(
    chain: Seq<char>,
    ip: Ipv4Addr,
    conditions: Seq<Seq<char>>,
    names: Set<Seq<char>>,
    target: Seq<char>,
)
    ensures
        rule_text(chain, ip, spaced(conditions), names, target) == rule_line(
            chain,
            ip,
            conditions,
            seq!['"'] + comment_text(names) + seq!['"'],
            target,
        ) + "\n"@,
{
    reveal_strlit("-A ");
    reveal_strlit(" ");
    reveal_strlit(" -d ");
    reveal_strlit("-d");
    reveal_strlit("/32");
    reveal_strlit("/32 ");
    reveal_strlit("-m comment --comment \"");
    reveal_strlit("-m");
    reveal_strlit("comment");
    reveal_strlit("--comment");
    reveal_strlit("\" -j ");
    reveal_strlit(" -j ");
    let a = addr_text(ip);
    let c = comment_text(names);
    let w1 = seq!["-d"@, a + "/32"@];
    let w3 = seq!["-m"@, "comment"@, "--comment"@];
    lemma_spaced_concat(w1, conditions);
    lemma_spaced_concat(w1 + conditions, w3);
    reveal_with_fuel(spaced, 4);
    assert(w1.drop_last() =~= seq!["-d"@]);
    assert(seq!["-d"@].drop_last() =~= Seq::<Seq<char>>::empty());
    assert(spaced(w1) =~= "-d"@ + seq![' '] + a + "/32 "@);
    assert(w3.drop_last() =~= seq!["-m"@, "comment"@]);
    assert(seq!["-m"@, "comment"@].drop_last() =~= seq!["-m"@]);
    assert(seq!["-m"@].drop_last() =~= Seq::<Seq<char>>::empty());
    assert(spaced(w3) + seq!['"'] =~= "-m comment --comment \""@);
    assert(seq!['"'] + " -j "@ =~= "\" -j "@);
    assert(" "@ + "-d"@ + seq![' '] =~= " -d "@);
    let head = "-A "@ + chain;
    let line = rule_line(chain, ip, conditions, seq!['"'] + c + seq!['"'], target);
    assert(line =~= head + (" "@ + "-d"@ + seq![' ']) + a + "/32 "@ + spaced(conditions) + (spaced(
        w3,
    ) + seq!['"']) + c + (seq!['"'] + " -j "@) + target);
}

/// A chain's part of the batch is the lines of its rules.
proof fn lemma_chain_text(
    chain: Seq<char>,
    conditions: Seq<Seq<char>>,
    target: Seq<char>,
    m: AddrNames,
    n: int,
)
    requires
        0 <= n <= in_order(m.dom(), addr_lt()).len(),
    ensures
        rules_text(
            chain,
            spaced(conditions),
            target,
            m,
            in_order(m.dom(), addr_lt()).take(n),
        ) == lines_text(
            rule_lines(chain, m, conditions, quoted_comments(m), target).take(n),
        ),
    decreases n,
{
    let keys = in_order(m.dom(), addr_lt());
    let ls = rule_lines(chain, m, conditions, quoted_comments(m), target);
    if n > 0 {
        lemma_chain_text(chain, conditions, target, m, n - 1);
        assert(keys.take(n).drop_last() =~= keys.take(n - 1));
        assert(ls.take(n).drop_last() =~= ls.take(n - 1));
        lemma_rule_text(chain, keys[n - 1], conditions, m[keys[n - 1]], target);
        assert(quoted_comments(m)[n - 1] == seq!['"'] + comment_text(m[keys[n - 1]]) + seq!['"']);
        let before = lines_text(ls.take(n - 1));
        assert(before + (ls[n - 1] + "\n"@) =~= before + ls[n - 1] + "\n"@);
    } else {
        assert(keys.take(0) =~= Seq::<Ipv4Addr>::empty());
        assert(ls.take(0) =~= Seq::<Seq<char>>::empty());
    }
}

pub proof fn lemma_quoted_comments(m: AddrNames)
    requires
        storable(m),
    ensures
        shows_comments(quoted_comments(m), m),
{
    let keys = in_order(m.dom(), addr_lt());
    let shown = quoted_comments(m);
    lemma_rules_in(m);
    assert forall|i: int| 0 <= i < keys.len() implies shows(
        #[trigger] shown[i],
        comment_text(m[keys[i]]),
    ) by {
        assert(rules_in(m)[i].0 == keys[i]);
        assert(m.contains_key(keys[i]));
        lemma_space();
        lemma_ordered_plain(m[keys[i]]);
        lemma_joined_quotable(in_order(m[keys[i]], name_lt()));
    }
}

/// The lines of a batch.
pub open spec fn restore_lines(
    fw: FirewallConfig,
    production: AddrNames,
    maintenance: AddrNames,
) -> Seq<Seq<char>> {
    seq![
        "*filter"@,
        ":"@ + fw.production_chain@ + " - [0:0]"@,
        ":"@ + fw.maintenance_chain@ + " - [0:0]"@,
    ] + rule_lines(
        fw.production_chain@,
        production,
        accept_words(fw.port as nat),
        quoted_comments(production),
        "ACCEPT"@,
    ) + rule_lines(
        fw.maintenance_chain@,
        maintenance,
        Seq::empty(),
        quoted_comments(maintenance),
        "DROP"@,
    ) + seq!["COMMIT"@]
}

/// The text of a single line.
proof fn lemma_line_text(l: Seq<char>)
    ensures
        lines_text(seq![l]) == l + "\n"@,
{
    reveal_with_fuel(lines_text, 2);
    assert(seq![l].drop_last() =~= Seq::<Seq<char>>::empty());
    assert(lines_text(seq![l]) =~= l + "\n"@);
}

/// The text of the lines before the rules.
proof fn lemma_head_text(p: Seq<char>, m: Seq<char>)
    ensures
        lines_text(
            seq!["*filter"@, ":"@ + p + " - [0:0]"@, ":"@ + m + " - [0:0]"@],
        ) == "*filter\n"@ + chain_header(p) + chain_header(m),
        lines_text(seq!["COMMIT"@]) == "COMMIT\n"@,
{
    let lp = ":"@ + p + " - [0:0]"@;
    let lm = ":"@ + m + " - [0:0]"@;
    lemma_line_text("*filter"@);
    lemma_line_text(lp);
    lemma_line_text(lm);
    lemma_line_text("COMMIT"@);
    reveal_strlit("*filter\n");
    reveal_strlit("*filter");
    reveal_strlit(" - [0:0]\n");
    reveal_strlit(" - [0:0]");
    reveal_strlit("COMMIT\n");
    reveal_strlit("COMMIT");
    reveal_strlit("\n");
    assert("*filter"@ + "\n"@ =~= "*filter\n"@);
    assert("COMMIT"@ + "\n"@ =~= "COMMIT\n"@);
    assert(" - [0:0]"@ + "\n"@ =~= " - [0:0]\n"@);
    assert(lp + "\n"@ =~= ":"@ + p + (" - [0:0]"@ + "\n"@));
    assert(lm + "\n"@ =~= ":"@ + m + (" - [0:0]"@ + "\n"@));
    lemma_lines_concat(seq!["*filter"@], seq![lp]);
    lemma_lines_concat(seq!["*filter"@] + seq![lp], seq![lm]);
    assert(seq!["*filter"@] + seq![lp] + seq![lm] =~= seq!["*filter"@, lp, lm]);
}

pub proof fn lemma_restore_text(fw: FirewallConfig, production: AddrNames, maintenance: AddrNames)
    ensures
        restore_text(fw, production, maintenance) == lines_text(
            restore_lines(fw, production, maintenance),
        ),
{
    let p = fw.production_chain@;
    let m = fw.maintenance_chain@;
    let head = seq!["*filter"@, ":"@ + p + " - [0:0]"@, ":"@ + m + " - [0:0]"@];
    let pl = rule_lines(
        p,
        production,
        accept_words(fw.port as nat),
        quoted_comments(production),
        "ACCEPT"@,
    );
    let ml = rule_lines(m, maintenance, Seq::empty(), quoted_comments(maintenance), "DROP"@);
    let tail = seq!["COMMIT"@];
    lemma_accept_words(fw.port as nat);
    lemma_chain_text(p, accept_words(fw.port as nat), "ACCEPT"@, production, pl.len() as int);
    lemma_chain_text(m, Seq::empty(), "DROP"@, maintenance, ml.len() as int);
    assert(pl.take(pl.len() as int) =~= pl);
    assert(ml.take(ml.len() as int) =~= ml);
    let pk = in_order(production.dom(), addr_lt());
    let mk = in_order(maintenance.dom(), addr_lt());
    assert(pk.take(pk.len() as int) =~= pk);
    assert(mk.take(mk.len() as int) =~= mk);
    assert(spaced(Seq::<Seq<char>>::empty()) =~= Seq::<char>::empty());
    lemma_lines_concat(head, pl);
    lemma_lines_concat(head + pl, ml);
    lemma_lines_concat(head + pl + ml, tail);
    lemma_head_text(p, m);
}

/// The lines around the rules of a batch.
pub proof fn lemma_frame_lines(chain: Seq<char>, reader: Seq<char>)
    requires
        valid_chain_name(chain),
    ensures
        one_line("*filter"@),
        one_line(":"@ + chain + " - [0:0]"@),
        one_line("COMMIT"@),
        !is_rule_line("*filter"@, reader),
        !is_rule_line(":"@ + chain + " - [0:0]"@, reader),
        !is_rule_line("COMMIT"@, reader),
        !is_rule_line(Seq::<char>::empty(), reader),
{
    reveal_strlit("*filter");
    reveal_strlit(" - [0:0]");
    reveal_strlit(":");
    reveal_strlit("COMMIT");
    lemma_chain_plain(chain);
    lemma_one_line_concat(":"@, chain);
    lemma_one_line_concat(":"@ + chain, " - [0:0]"@);
    lemma_no_rule("*filter"@, reader);
    lemma_no_rule(":"@ + chain + " - [0:0]"@, reader);
    lemma_no_rule("COMMIT"@, reader);
    lemma_no_rule(Seq::<char>::empty(), reader);
}

/// What is read of `chain` in the lines of a batch that holds its rules
/// between lines of no concern to it.
proof fn lemma_read_framed(
    before: Seq<Seq<char>>,
    own: Seq<Seq<char>>,
    after: Seq<Seq<char>>,
    m: AddrNames,
    chain: Seq<char>,
)
    requires
        forall|k: int| 0 <= k < before.len() ==> !is_rule_line(#[trigger] before[k], chain),
        forall|k: int| 0 <= k < after.len() ==> !is_rule_line(#[trigger] after[k], chain),
        own.filter_map(reads(chain)) == rules_in(m),
        own.filter(counts(chain)).len() == m.dom().len(),
    ensures
        (before + own + after).filter_map(reads(chain)) == rules_in(m),
        (before + own + after).filter(counts(chain)).len() == m.dom().len(),
{
    lemma_read_others(before, chain);
    lemma_read_others(after, chain);
    lemma_read_concat(before, own, chain);
    lemma_read_concat(before + own, after, chain);
    assert((before + own + after).filter_map(reads(chain)) =~= rules_in(m));
}

/// The batch that replaces the chains says exactly what is planned: read as a
/// listing, each chain holds one rule per address of its map, with all the
/// names, and nothing else.
pub proof fn law_restore_round_trip(
    fw: FirewallConfig,
    production: AddrNames,
    maintenance: AddrNames,
)
    requires
        valid_chain_name(fw.production_chain@),
        valid_chain_name(fw.maintenance_chain@),
        fw.production_chain@ != fw.maintenance_chain@,
        storable(production),
        storable(maintenance),
    ensures
        ({
            let batch = restore_text(fw, production, maintenance);
            &&& listed_rules(batch, fw.production_chain@) == rules_in(production)
            &&& rule_count(batch, fw.production_chain@) == production.dom().len()
            &&& rules_map(listed_rules(batch, fw.production_chain@)) == production
            &&& listed_rules(batch, fw.maintenance_chain@) == rules_in(maintenance)
            &&& rule_count(batch, fw.maintenance_chain@) == maintenance.dom().len()
            &&& rules_map(listed_rules(batch, fw.maintenance_chain@)) == maintenance
        }),
{
    let p = fw.production_chain@;
    let m = fw.maintenance_chain@;
    let none = Seq::<Seq<char>>::empty();
    let accept = accept_words(fw.port as nat);
    let batch = restore_text(fw, production, maintenance);
    let ls = restore_lines(fw, production, maintenance);
    let head = seq!["*filter"@, ":"@ + p + " - [0:0]"@, ":"@ + m + " - [0:0]"@];
    let pl = rule_lines(p, production, accept, quoted_comments(production), "ACCEPT"@);
    let ml = rule_lines(m, maintenance, none, quoted_comments(maintenance), "DROP"@);
    let tail = seq!["COMMIT"@];
    let rest = seq![Seq::<char>::empty()];
    lemma_restore_text(fw, production, maintenance);
    lemma_accept_words(fw.port as nat);
    lemma_targets();
    lemma_quoted_comments(production);
    lemma_quoted_comments(maintenance);
    lemma_rule_lines(p, production, accept, quoted_comments(production), "ACCEPT"@);
    lemma_rule_lines(m, maintenance, none, quoted_comments(maintenance), "DROP"@);
    lemma_rules_in(production);
    lemma_rules_in(maintenance);
    lemma_frame_lines(p, p);
    lemma_frame_lines(m, p);
    lemma_frame_lines(p, m);
    lemma_frame_lines(m, m);
    assert forall|k: int| 0 <= k < ls.len() implies one_line(#[trigger] ls[k]) by {
        if 3 <= k < 3 + pl.len() {
            assert(ls[k] == pl[k - 3]);
        } else if 3 + pl.len() <= k < 3 + pl.len() + ml.len() {
            assert(ls[k] == ml[k - 3 - pl.len()]);
        }
    }
    lemma_lines_cut(ls);
    assert forall|k: int| 0 <= k < pl.len() implies !is_rule_line(#[trigger] pl[k], m) by {
        lemma_other_chain(
            m,
            p,
            in_order(production.dom(), addr_lt())[k],
            accept,
            quoted_comments(production)[k],
            "ACCEPT"@,
        );
    }
    assert forall|k: int| 0 <= k < ml.len() implies !is_rule_line(#[trigger] ml[k], p) by {
        lemma_other_chain(
            p,
            m,
            in_order(maintenance.dom(), addr_lt())[k],
            none,
            quoted_comments(maintenance)[k],
            "DROP"@,
        );
    }
    // production
    let after = ml + tail + rest;
    assert forall|k: int| 0 <= k < head.len() implies !is_rule_line(#[trigger] head[k], p) by {}
    assert forall|k: int| 0 <= k < after.len() implies !is_rule_line(#[trigger] after[k], p) by {
        if k < ml.len() {
            assert(after[k] == ml[k]);
        }
    }
    lemma_read_framed(head, pl, after, production, p);
    assert(head + pl + after =~= ls.push(Seq::empty()));
    assert(counts(p) == (|line: Seq<char>| is_rule_line(line, p)));
    assert(reads(p) == (|line: Seq<char>| rule_in(line, p)));
    // maintenance
    let before = head + pl;
    let after = tail + rest;
    assert forall|k: int| 0 <= k < before.len() implies !is_rule_line(#[trigger] before[k], m) by {
        if k >= 3 {
            assert(before[k] == pl[k - 3]);
        }
    }
    assert forall|k: int| 0 <= k < after.len() implies !is_rule_line(#[trigger] after[k], m) by {}
    lemma_read_framed(before, ml, after, maintenance, m);
    assert(before + ml + after =~= ls.push(Seq::empty()));
    assert(counts(m) == (|line: Seq<char>| is_rule_line(line, m)));
    assert(reads(m) == (|line: Seq<char>| rule_in(line, m)));
}

/// The production chain as `iptables -S` lists it.
pub open spec fn production_listing(
    fw: FirewallConfig,
    production: AddrNames,
    shown: Seq<Seq<char>>,
) -> Seq<char> {
    lines_text(
        seq!["-N "@ + fw.production_chain@] + rule_lines(
            fw.production_chain@,
            production,
            listed_accept_words(fw.port as nat),
            shown,
            "ACCEPT"@,
        ),
    )
}

/// The maintenance chain as `iptables -S` lists it.
pub open spec fn maintenance_listing(
    fw: FirewallConfig,
    maintenance: AddrNames,
    shown: Seq<Seq<char>>,
) -> Seq<char> {
    lines_text(
        seq!["-N "@ + fw.maintenance_chain@] + rule_lines(
            fw.maintenance_chain@,
            maintenance,
            Seq::empty(),
            shown,
            "DROP"@,
        ),
    )
}

/// Once the kernel lists the chains as the batch wrote them (in its own
/// wording: it spells out the TCP match and may leave out the quotes of a
/// one-word comment), reading them back gives exactly the maps that were
/// written.
pub proof fn law_kernel_round_trip(
    fw: FirewallConfig,
    production: AddrNames,
    maintenance: AddrNames,
    shown_production: Seq<Seq<char>>,
    shown_maintenance: Seq<Seq<char>>,
)
    requires
        valid_chain_name(fw.production_chain@),
        valid_chain_name(fw.maintenance_chain@),
        storable(production),
        storable(maintenance),
        shows_comments(shown_production, production),
        shows_comments(shown_maintenance, maintenance),
    ensures
        ({
            let p = production_listing(fw, production, shown_production);
            let m = maintenance_listing(fw, maintenance, shown_maintenance);
            &&& listed_rules(p, fw.production_chain@) == rules_in(production)
            &&& rules_map(listed_rules(p, fw.production_chain@)) == production
            &&& rule_count(p, fw.production_chain@) == production.dom().len()
            &&& listed_rules(m, fw.maintenance_chain@) == rules_in(maintenance)
            &&& rules_map(listed_rules(m, fw.maintenance_chain@)) == maintenance
            &&& rule_count(m, fw.maintenance_chain@) == maintenance.dom().len()
        }),
{
    lemma_accept_words(fw.port as nat);
    lemma_targets();
    law_listing_round_trip(
        fw.production_chain@,
        production,
        listed_accept_words(fw.port as nat),
        shown_production,
        "ACCEPT"@,
    );
    law_listing_round_trip(
        fw.maintenance_chain@,
        maintenance,
        Seq::empty(),
        shown_maintenance,
        "DROP"@,
    );
}

} // verus!
