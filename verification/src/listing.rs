//! What is read of a listing, and what the commands are.

use vstd::prelude::*;

use crate::addr::{addr_text, addr_value, Ipv4Addr};
use crate::basics::{all_blank, law_trimming};
use crate::conntrack::kill_call;
use crate::exec::{CallView, OutputView};
use crate::iptables::{
    chain_in_reply, is_rule_line, lemma_distinct_count, list_call, listed_rules, one_rule_each,
    read_tokens, restore_call, restore_in_reply, rule_count, rule_in, rules_map, scan, scan_char,
    scan_end, scan_start, tokens, ChainView, Rule, Scan,
};
use crate::number::signed_numeral;
use crate::text::{cut, equals, is_blank, lemma_cut_at, lemma_cut_nonempty, pieces, trimmed, words};

verus! {

// ---------------------------------------------------------------------------
// Tokens
// ---------------------------------------------------------------------------

/// The pieces between white space, as the tokenizer has them without quotes.
spec fn blank_cut(s: Seq<char>) -> Seq<Seq<char>> {
    cut(s, |x: char| is_blank(x))
}

/// Keeping non-empty pieces.
spec fn filled() -> spec_fn(Seq<char>) -> bool {
    |w: Seq<char>| w.len() > 0
}

proof fn lemma_scan_unquoted(s: Seq<char>)
    requires
        !s.contains('"'),
    ensures
        ({
            let st = scan(scan_start(), s);
            let c = blank_cut(s);
            &&& c.len() > 0
            &&& !st.quoted && !st.escaped
            &&& st.done == c.drop_last().filter(filled())
            &&& st.cur == c.last()
            &&& st.open <==> c.last().len() > 0
        }),
    decreases s.len(),
{
    let sep = |x: char| is_blank(x);
    lemma_cut_nonempty(s, sep);
    reveal(Seq::filter);
    if s.len() > 0 {
        let d = s.drop_last();
        let c = s.last();
        assert(s[s.len() - 1] == c);
        assert(c != '"') by {
            assert(s.contains(s[s.len() - 1]));
        }
        assert(!d.contains('"')) by {
            if d.contains('"') {
                let i = choose|i: int| 0 <= i < d.len() && d[i] == '"';
                assert(s[i] == '"');
            }
        }
        lemma_scan_unquoted(d);
        lemma_cut_nonempty(d, sep);
        let head = blank_cut(d);
        if is_blank(c) {
            assert(blank_cut(s) == head.push(Seq::empty()));
            assert(head.push(Seq::<char>::empty()).drop_last() =~= head);
            assert(head =~= head.drop_last().push(head.last()));
            head.drop_last().lemma_filter_push(head.last(), filled());
        } else {
            let grown = head.drop_last().push(head.last().push(c));
            assert(grown.drop_last() =~= head.drop_last());
        }
    } else {
        assert(blank_cut(s) =~= seq![s]);
        assert(seq![s].drop_last() =~= Seq::<Seq<char>>::empty());
    }
}

/// Without quotes the tokens are the words; a backslash means nothing special
/// there.
pub proof fn law_tokens_are_words(s: Seq<char>)
    requires
        !s.contains('"'),
    ensures
        tokens(s) == words(s),
{
    let c = blank_cut(s);
    lemma_scan_unquoted(s);
    assert(c =~= c.drop_last().push(c.last()));
    c.drop_last().lemma_filter_push(c.last(), filled());
    assert(words(s) == c.filter(filled()));
}

/// A text as it may be written between quotes: with a backslash before some of
/// its characters.
pub open spec fn spelled(s: Seq<char>, marks: Seq<bool>) -> Seq<char>
    decreases s.len(),
{
    if s.len() == 0 {
        Seq::empty()
    } else if marks[s.len() - 1] {
        spelled(s.drop_last(), marks) + seq!['\\', s.last()]
    } else {
        spelled(s.drop_last(), marks).push(s.last())
    }
}

/// Every quote and every backslash has a backslash before it.
pub open spec fn protects(s: Seq<char>, marks: Seq<bool>) -> bool {
    forall|i: int| 0 <= i < s.len() && ((#[trigger] s[i]) == '"' || s[i] == '\\') ==> marks[i]
}

proof fn lemma_scan_more(st: Scan, a: Seq<char>, b: Seq<char>)
    ensures
        scan(st, a + b) == scan(scan(st, a), b),
    decreases b.len(),
{
    if b.len() == 0 {
        assert(a + b =~= a);
    } else {
        assert((a + b).drop_last() =~= a + b.drop_last());
        lemma_scan_more(st, a, b.drop_last());
    }
}

proof fn lemma_scan_two(st: Scan, c: char, d: char)
    ensures
        scan(st, seq![c]) == scan_char(st, c),
        scan(st, seq![c, d]) == scan_char(scan_char(st, c), d),
{
    assert(seq![c].drop_last() =~= Seq::<char>::empty());
    assert(scan(st, Seq::<char>::empty()) == st);
    assert(scan(st, seq![c]) == scan_char(st, c));
    assert(seq![c, d].drop_last() =~= seq![c]);
    assert(seq![c, d].last() == d);
}

/// Inside quotes a text is read as it is meant.
proof fn lemma_scan_spelled(st: Scan, s: Seq<char>, marks: Seq<bool>)
    requires
        st.quoted,
        st.open,
        !st.escaped,
        protects(s, marks),
    ensures
        scan(st, spelled(s, marks)) == (Scan { cur: st.cur + s, ..st }),
    decreases s.len(),
{
    if s.len() == 0 {
        assert(st.cur + s =~= st.cur);
    } else {
        let d = s.drop_last();
        let c = s.last();
        assert forall|i: int| 0 <= i < d.len() && ((#[trigger] d[i]) == '"' || d[i] == '\\') implies
            marks[i] by {
            assert(d[i] == s[i]);
        }
        lemma_scan_spelled(st, d, marks);
        let mid = Scan { cur: st.cur + d, ..st };
        assert((st.cur + d).push(c) =~= st.cur + s);
        if marks[s.len() - 1] {
            lemma_scan_more(st, spelled(d, marks), seq!['\\', c]);
            lemma_scan_two(mid, '\\', c);
        } else {
            assert(s[s.len() - 1] != '"' && s[s.len() - 1] != '\\');
            lemma_scan_more(st, spelled(d, marks), seq![c]);
            lemma_scan_two(mid, c, c);
            assert(spelled(d, marks) + seq![c] =~= spelled(d, marks).push(c));
        }
    }
}

/// The tokens so far only grow at the front.
proof fn lemma_scan_front(st: Scan, done: Seq<Seq<char>>, s: Seq<char>)
    ensures
        scan(Scan { done: done + st.done, ..st }, s) == (Scan {
            done: done + scan(st, s).done,
            ..scan(st, s)
        }),
    decreases s.len(),
{
    if s.len() > 0 {
        lemma_scan_front(st, done, s.drop_last());
        let x = scan(st, s.drop_last());
        assert((done + x.done).push(x.cur) =~= done + x.done.push(x.cur));
    }
}

/// Quotes hold a token together: between white space, a quoted text is one
/// token. A backslash in it makes the next character literal, whatever that is.
/// What comes before and after the quotes is read as if it stood alone.
pub proof fn law_quoted_text_is_one_token(
    a: Seq<char>,
    body: Seq<char>,
    marks: Seq<bool>,
    b: Seq<char>,
)
    requires
        protects(body, marks),
        !a.contains('"'),
        a.len() == 0 || is_blank(a.last()),
        b.len() == 0 || is_blank(b[0]),
    ensures
        tokens(a + seq!['"'] + spelled(body, marks) + seq!['"'] + b) == tokens(a) + seq![body]
            + tokens(b),
{
    let start = scan_start();
    lemma_scan_unquoted(a);
    let st = scan(start, a);
    let c = blank_cut(a);
    assert(!st.open && st.cur.len() == 0) by {
        if a.len() > 0 {
            assert(c == blank_cut(a.drop_last()).push(Seq::empty()));
        }
    }
    assert(st.cur =~= Seq::<char>::empty());
    let none = Seq::<char>::empty();
    let q = Scan { cur: none, open: true, quoted: true, ..st };
    lemma_scan_more(start, a, seq!['"']);
    lemma_scan_two(st, '"', '"');
    lemma_scan_more(start, a + seq!['"'], spelled(body, marks));
    lemma_scan_spelled(q, body, marks);
    assert(none + body =~= body);
    let e = Scan { cur: body, open: true, quoted: true, ..st };
    lemma_scan_more(start, a + seq!['"'] + spelled(body, marks), seq!['"']);
    lemma_scan_two(e, '"', '"');
    let f = Scan { cur: body, open: true, quoted: false, ..st };
    let left = a + seq!['"'] + spelled(body, marks) + seq!['"'];
    assert(scan(start, left) == f);
    lemma_scan_more(start, left, b);
    if b.len() == 0 {
        assert(tokens(b) =~= Seq::<Seq<char>>::empty());
        assert(tokens(a) + seq![body] + tokens(b) =~= st.done.push(body));
        assert(left + b =~= left);
    } else {
        let rest = b.skip(1);
        let w = b[0];
        assert(b =~= seq![w] + rest);
        lemma_scan_more(f, seq![w], rest);
        lemma_scan_two(f, w, w);
        lemma_scan_more(start, seq![w], rest);
        lemma_scan_two(start, w, w);
        assert(w != '"') by {
            assert(!is_blank('"'));
        }
        assert(scan(start, b) == scan(start, rest));
        let done = st.done.push(body);
        lemma_scan_front(start, done, rest);
        assert(done + start.done =~= done);
        let end = scan(start, rest);
        assert(tokens(left + b) == scan_end(Scan { done: done + end.done, ..end }));
        assert(st.done.push(body) + end.done.push(end.cur) =~= (done + end.done).push(end.cur));
        assert(tokens(a) == st.done);
        assert(tokens(left + b) =~= tokens(a) + seq![body] + tokens(b));
    }
}

/// Quotes inside a word neither part nor end it, and quotes that are not closed
/// reach to the end.
pub proof fn law_quotes_inside_a_word(
    a: Seq<char>,
    body: Seq<char>,
    marks: Seq<bool>,
    b: Seq<char>,
)
    requires
        protects(body, marks),
        forall|i: int| 0 <= i < a.len() ==> !is_blank(#[trigger] a[i]) && a[i] != '"',
        forall|i: int| 0 <= i < b.len() ==> !is_blank(#[trigger] b[i]) && b[i] != '"',
    ensures
        tokens(a + seq!['"'] + spelled(body, marks) + seq!['"'] + b) == seq![a + body + b],
        tokens(a + seq!['"'] + spelled(body, marks)) == seq![a + body],
        tokens(a + seq!['"'] + spelled(body, marks) + seq!['\\']) == seq![a + body],
{
    let start = scan_start();
    let none = Seq::<Seq<char>>::empty();
    lemma_scan_solid(start, a);
    let st = scan(start, a);
    assert(start.cur + a =~= a);
    let q = Scan { cur: a, open: true, quoted: true, ..start };
    lemma_scan_more(start, a, seq!['"']);
    lemma_scan_two(st, '"', '"');
    lemma_scan_more(start, a + seq!['"'], spelled(body, marks));
    lemma_scan_spelled(q, body, marks);
    let e = Scan { cur: a + body, open: true, quoted: true, ..start };
    lemma_scan_more(start, a + seq!['"'] + spelled(body, marks), seq!['"']);
    lemma_scan_two(e, '"', '"');
    lemma_scan_more(start, a + seq!['"'] + spelled(body, marks), seq!['\\']);
    lemma_scan_two(e, '\\', '\\');
    let f = Scan { cur: a + body, open: true, quoted: false, ..start };
    lemma_scan_more(start, a + seq!['"'] + spelled(body, marks) + seq!['"'], b);
    lemma_scan_solid(f, b);
    assert(none.push(a + body + b) =~= seq![a + body + b]);
    assert(none.push(a + body) =~= seq![a + body]);
}

proof fn lemma_scan_solid(st: Scan, s: Seq<char>)
    requires
        !st.quoted,
        !st.escaped,
        forall|i: int| 0 <= i < s.len() ==> !is_blank(#[trigger] s[i]) && s[i] != '"',
    ensures
        scan(st, s) == (Scan { cur: st.cur + s, open: st.open || s.len() > 0, ..st }),
    decreases s.len(),
{
    if s.len() == 0 {
        assert(st.cur + s =~= st.cur);
    } else {
        let d = s.drop_last();
        assert forall|i: int| 0 <= i < d.len() implies !is_blank(#[trigger] d[i]) && d[i] != '"' by {
            assert(d[i] == s[i]);
        }
        lemma_scan_solid(st, d);
        assert(!is_blank(s[s.len() - 1]) && s[s.len() - 1] != '"');
        assert((st.cur + d).push(s.last()) =~= st.cur + s);
    }
}

// ---------------------------------------------------------------------------
// Rules
// ---------------------------------------------------------------------------

/// Tokens that say nothing about destination and comment.
pub open spec fn silent(ts: Seq<Seq<char>>) -> bool {
    forall|k: int| 0 <= k < ts.len() ==> (#[trigger] ts[k]) != "-d"@ && ts[k] != "--comment"@
}

proof fn lemma_read_silent(
    ts: Seq<Seq<char>>,
    rest: Seq<Seq<char>>,
    ip: Option<Ipv4Addr>,
    names: Set<Seq<char>>,
)
    requires
        silent(ts),
    ensures
        read_tokens(ts + rest, ip, names) == read_tokens(rest, ip, names),
    decreases ts.len(),
{
    let all = ts + rest;
    if ts.len() == 0 {
        assert(all =~= rest);
    } else {
        let t = ts.skip(1);
        assert(all[0] == ts[0] && ts[0] != "-d"@ && ts[0] != "--comment"@);
        assert forall|k: int| 0 <= k < t.len() implies (#[trigger] t[k]) != "-d"@ && t[k]
            != "--comment"@ by {
            assert(t[k] == ts[k + 1]);
        }
        assert(all.skip(1) =~= t + rest);
        lemma_read_silent(t, rest, ip, names);
    }
}

proof fn lemma_read_silent_end(ts: Seq<Seq<char>>, ip: Option<Ipv4Addr>, names: Set<Seq<char>>)
    requires
        silent(ts),
    ensures
        read_tokens(ts, ip, names) == (ip, names),
{
    let none = Seq::<Seq<char>>::empty();
    lemma_read_silent(ts, none, ip, names);
    assert(ts + none =~= ts);
}

/// What a destination token does to what was read so far.
pub proof fn law_destination_is_read(
    before: Seq<Seq<char>>,
    dest: Seq<char>,
    after: Seq<Seq<char>>,
    ip: Option<Ipv4Addr>,
    names: Set<Seq<char>>,
)
    requires
        silent(before),
    ensures
        read_tokens(before + seq!["-d"@, dest] + after, ip, names) == read_tokens(
            after,
            addr_value(pieces(dest, '/')[0]),
            names,
        ),
{
    let tail = seq!["-d"@, dest] + after;
    assert(before + seq!["-d"@, dest] + after =~= before + tail);
    lemma_read_silent(before, tail, ip, names);
    assert(tail[0] == "-d"@ && tail[1] == dest);
    assert(tail.skip(2) =~= after);
}

/// What a comment token does to what was read so far.
pub proof fn law_comment_is_read(
    before: Seq<Seq<char>>,
    comment: Seq<char>,
    after: Seq<Seq<char>>,
    ip: Option<Ipv4Addr>,
    names: Set<Seq<char>>,
)
    requires
        silent(before),
    ensures
        ({
            let more = Set::new(|n: Seq<char>| names.contains(n) || words(comment).contains(n));
            read_tokens(before + seq!["--comment"@, comment] + after, ip, names) == read_tokens(
                after,
                ip,
                more,
            )
        }),
{
    let tail = seq!["--comment"@, comment] + after;
    let more = Set::new(|n: Seq<char>| names.contains(n) || words(comment).contains(n));
    assert(before + seq!["--comment"@, comment] + after =~= before + tail);
    lemma_read_silent(before, tail, ip, names);
    assert(tail[0] == "--comment"@ && tail[1] == comment);
    assert("--comment"@ != "-d"@) by {
        reveal_strlit("--comment");
        reveal_strlit("-d");
        assert("--comment"@.len() != "-d"@.len());
    }
    assert(tail.skip(2) =~= after);
    assert(names.union(words(comment).to_set()) =~= more);
}

/// A keyword without a value says nothing.
pub proof fn law_dangling_keyword_is_ignored(
    before: Seq<Seq<char>>,
    ip: Option<Ipv4Addr>,
    names: Set<Seq<char>>,
)
    requires
        silent(before),
    ensures
        read_tokens(before.push("-d"@), ip, names) == (ip, names),
        read_tokens(before.push("--comment"@), ip, names) == (ip, names),
{
    let d = seq!["-d"@];
    let c = seq!["--comment"@];
    assert(before.push("-d"@) =~= before + d);
    assert(before.push("--comment"@) =~= before + c);
    lemma_read_silent(before, d, ip, names);
    lemma_read_silent(before, c, ip, names);
    assert(d.skip(1) =~= Seq::<Seq<char>>::empty());
    assert(c.skip(1) =~= Seq::<Seq<char>>::empty());
    assert(read_tokens(Seq::<Seq<char>>::empty(), ip, names) == (ip, names));
}

/// What a rule says: its destination is the address before the slash, its names
/// are the words of its comment, whatever else stands in the rule, and in
/// whichever order the two come.
pub proof fn law_rule_is_read(
    a: Seq<Seq<char>>,
    dest: Seq<char>,
    b: Seq<Seq<char>>,
    comment: Seq<char>,
    c: Seq<Seq<char>>,
)
    requires
        silent(a),
        silent(b),
        silent(c),
    ensures
        ({
            let got = (addr_value(pieces(dest, '/')[0]), words(comment).to_set());
            let none = Set::<Seq<char>>::empty();
            &&& read_tokens(
                a + seq!["-d"@, dest] + (b + seq!["--comment"@, comment] + c),
                None,
                none,
            ) == got
            &&& read_tokens(
                a + seq!["--comment"@, comment] + (b + seq!["-d"@, dest] + c),
                None,
                none,
            ) == got
            &&& read_tokens(a + seq!["-d"@, dest] + b, None, none) == (got.0, none)
            &&& read_tokens(a, None, none) == (None::<Ipv4Addr>, none)
        }),
{
    let none = Set::<Seq<char>>::empty();
    let ip = addr_value(pieces(dest, '/')[0]);
    let names = words(comment).to_set();
    let more = Set::new(|n: Seq<char>| none.contains(n) || words(comment).contains(n));
    assert(more =~= names);
    law_destination_is_read(a, dest, b + seq!["--comment"@, comment] + c, None, none);
    law_comment_is_read(b, comment, c, ip, none);
    lemma_read_silent_end(c, ip, names);
    law_comment_is_read(a, comment, b + seq!["-d"@, dest] + c, None, none);
    law_destination_is_read(b, dest, c, None, names);
    law_destination_is_read(a, dest, b, None, none);
    lemma_read_silent_end(b, ip, none);
    lemma_read_silent_end(a, None, none);
}

// ---------------------------------------------------------------------------
// Lines
// ---------------------------------------------------------------------------

/// Which lines are rules of a chain: `-A`, the chain, and then nothing or a
/// space and more; white space around the line does not matter. A rule with a
/// destination counts as that rule.
pub proof fn law_rule_lines_are_found(
    chain: Seq<char>,
    a: Seq<char>,
    line: Seq<char>,
    b: Seq<char>,
)
    requires
        all_blank(a),
        all_blank(b),
        line.len() > 0 ==> !is_blank(line[0]) && !is_blank(line[line.len() - 1]),
    ensures
        ({
            let head = "-A "@ + chain;
            let whole = a + line + b;
            let more = (head + " "@).is_prefix_of(line);
            &&& is_rule_line(whole, chain) <==> line == head || more
            &&& more ==> {
                let got = read_tokens(
                    tokens(line.skip((head + " "@).len() as int)),
                    None,
                    Set::empty(),
                );
                &&& rule_in(whole, chain) is Some <==> got.0 is Some
                &&& rule_in(whole, chain) matches Some(r) ==> Some(r.0) == got.0 && r.1 == got.1
            }
            &&& !more ==> rule_in(whole, chain) is None
        }),
{
    law_trimming(a, line, b);
}

/// A listing is read line by line: what two listings say together is what each
/// of them says.
pub proof fn law_listings_are_read_line_by_line(x: Seq<char>, y: Seq<char>, chain: Seq<char>)
    ensures
        listed_rules(x + seq!['\n'] + y, chain) == listed_rules(x, chain) + listed_rules(y, chain),
        rule_count(x + seq!['\n'] + y, chain) == rule_count(x, chain) + rule_count(y, chain),
        !x.contains('\n') ==> rule_count(x, chain) == (if is_rule_line(x, chain) {
            1nat
        } else {
            0
        }),
        !x.contains('\n') ==> listed_rules(x, chain) == (match rule_in(x, chain) {
            Some(r) => seq![r],
            None => Seq::empty(),
        }),
{
    let sep = equals('\n');
    let p = |line: Seq<char>| is_rule_line(line, chain);
    let f = |line: Seq<char>| rule_in(line, chain);
    lemma_cut_at(x, '\n', y, sep);
    Seq::filter_distributes_over_add(pieces(x, '\n'), pieces(y, '\n'), p);
    lemma_filter_map_add(pieces(x, '\n'), pieces(y, '\n'), f);
    if !x.contains('\n') {
        assert forall|i: int| 0 <= i < x.len() implies !#[trigger] sep(x[i]) by {
            if x[i] == '\n' {
                assert(x.contains('\n'));
            }
        }
        crate::text::lemma_cut_whole(x, sep);
        let one = seq![x];
        assert(pieces(x, '\n') == one);
        assert(one.drop_last() =~= Seq::<Seq<char>>::empty());
        assert(one.last() == x);
        reveal_with_fuel(Seq::filter, 2);
        reveal_with_fuel(Seq::filter_map, 2);
        assert(Seq::<Seq<char>>::empty().filter(p) =~= Seq::<Seq<char>>::empty());
        assert(Seq::<Seq<char>>::empty().filter_map(f) =~= Seq::<Rule>::empty());
        match rule_in(x, chain) {
            Some(r) => {
                assert(one.filter_map(f) =~= seq![r]);
            },
            None => {
                assert(one.filter_map(f) =~= Seq::<Rule>::empty());
            },
        }
    }
}

proof fn lemma_filter_map_add(
    a: Seq<Seq<char>>,
    b: Seq<Seq<char>>,
    f: spec_fn(Seq<char>) -> Option<Rule>,
)
    ensures
        (a + b).filter_map(f) == a.filter_map(f) + b.filter_map(f),
    decreases b.len(),
{
    reveal(Seq::filter_map);
    if b.len() == 0 {
        assert(a + b =~= a);
        assert(b.filter_map(f) =~= Seq::<Rule>::empty());
        assert(a.filter_map(f) + b.filter_map(f) =~= a.filter_map(f));
    } else {
        assert((a + b).drop_last() =~= a + b.drop_last());
        assert((a + b).last() == b.last());
        lemma_filter_map_add(a, b.drop_last(), f);
        assert((a + b).filter_map(f) =~= a.filter_map(f) + b.filter_map(f));
    }
}

/// The rules of a chain as a map: an address has a name exactly if a rule for
/// that address has it.
pub proof fn law_rules_map(rules: Seq<Rule>, r: Rule, ip: Ipv4Addr, n: Seq<char>)
    ensures
        !rules_map(Seq::empty()).contains_key(ip),
        rules_map(rules.push(r)).contains_key(ip) <==> rules_map(rules).contains_key(ip) || ip
            == r.0,
        ip == r.0 && r.1.contains(n) ==> rules_map(rules.push(r))[ip].contains(n),
        rules_map(rules).contains_key(ip) ==> (rules_map(rules.push(r))[ip].contains(n) <==> rules_map(
            rules,
        )[ip].contains(n) || (ip == r.0 && r.1.contains(n))),
        !rules_map(rules).contains_key(ip) && ip == r.0 ==> (rules_map(rules.push(r))[ip].contains(n)
            <==> r.1.contains(n)),
{
    crate::iptables::lemma_rules_map_push(rules, r);
    assert(rules_map(Seq::<Rule>::empty()).dom() =~= Set::<Ipv4Addr>::empty());
}

/// A chain is clean exactly if every rule line was read as a rule and there are
/// as many addresses as rules.
pub proof fn law_clean_chain(c: ChainView)
    ensures
        one_rule_each(c) <==> c.rule_lines == c.rules.len() && rules_map(c.rules).dom().len()
            == c.rules.len(),
{
    lemma_distinct_count(c.rules);
}

// ---------------------------------------------------------------------------
// Commands
// ---------------------------------------------------------------------------

/// The commands, word for word: list a chain, restore from a batch, delete the
/// flows to an address. The first two wait up to five seconds for the lock, and
/// the batch leaves other chains alone.
pub proof fn law_commands(chain: Seq<char>, batch: Seq<char>, ip: Ipv4Addr)
    ensures
        list_call(chain) == (CallView {
            program: "/usr/sbin/iptables"@,
            args: seq!["-w"@, "5"@, "-S"@, chain],
            stdin: None,
        }),
        restore_call(batch) == (CallView {
            program: "/usr/sbin/iptables-restore"@,
            args: seq!["-w"@, "5"@, "-n"@],
            stdin: Some(batch),
        }),
        kill_call(ip) == (CallView {
            program: "/usr/sbin/conntrack"@,
            args: seq!["-D"@, "-d"@, addr_text(ip)],
            stdin: None,
        }),
{
}

/// What a reply to a listing gives: only status 0 counts, and then the rules and
/// the rule lines of its output; otherwise the error tells the status and what
/// the program complained about, or why it could not be run.
pub proof fn law_listing_replies(chain: Seq<char>, out: OutputView, e: Seq<char>)
    ensures
        chain_in_reply(chain, Err(e)) == Err::<ChainView, Seq<char>>(
            "cannot run "@ + "/usr/sbin/iptables"@ + ": "@ + e,
        ),
        out.status == 0 ==> (chain_in_reply(chain, Ok(out)) matches Ok(c) && c.rules == listed_rules(
            out.stdout,
            chain,
        ) && c.rule_lines == rule_count(out.stdout, chain)),
        out.status != 0 ==> chain_in_reply(chain, Ok(out)) == Err::<ChainView, Seq<char>>(
            "iptables -S "@ + chain + " failed (status "@ + signed_numeral(out.status) + "): "@
                + trimmed(out.stderr),
        ),
{
}

/// What a reply to a restore gives: only status 0 is a success.
pub proof fn law_restore_replies(out: OutputView, e: Seq<char>)
    ensures
        restore_in_reply(Err(e)) == Err::<(), Seq<char>>(
            "cannot run "@ + "/usr/sbin/iptables-restore"@ + ": "@ + e,
        ),
        out.status == 0 ==> restore_in_reply(Ok(out)) is Ok,
        out.status != 0 ==> restore_in_reply(Ok(out)) == Err::<(), Seq<char>>(
            "iptables-restore failed (status "@ + signed_numeral(out.status) + "): "@ + trimmed(
                out.stderr,
            ),
        ),
{
}

} // verus!
