//! Which names and configurations are valid, character by character.

use vstd::prelude::*;

use crate::addr::addr_text;
use crate::basics::law_splitting_undoes_joining;
use crate::config::{
    config_problem, endpoint_problem, firewall_problem, first_some, names_of, normalized,
    resolver_problem, static_name_problem, static_problem, valid_chain_name, valid_hostname,
    valid_label, Config, StaticHost,
};
use crate::policy::{lemma_hostname_plain, lemma_none_found};
use crate::text::{
    byte_len, char_width, cut, debug_form, equals, is_alnum, joined, lemma_byte_len_push, lemma_cut_at,
    lemma_cut_clean, lemma_cut_nonempty, pieces,
};

verus! {

// ---------------------------------------------------------------------------
// Pieces
// ---------------------------------------------------------------------------

/// The first piece reaches up to the first separator.
proof fn lemma_first_piece(s: Seq<char>, sep: spec_fn(char) -> bool)
    ensures
        cut(s, sep).len() > 0,
        cut(s, sep)[0].len() <= s.len(),
        cut(s, sep)[0] == s.take(cut(s, sep)[0].len() as int),
        cut(s, sep)[0].len() == s.len() || sep(s[cut(s, sep)[0].len() as int]),
        cut(s, sep)[0].len() == s.len() ==> cut(s, sep).len() == 1,
    decreases s.len(),
{
    if s.len() > 0 {
        let d = s.drop_last();
        lemma_first_piece(d, sep);
        let n = cut(d, sep)[0].len() as int;
        if n < d.len() {
            assert(cut(s, sep)[0] == cut(d, sep)[0]) by {
                if cut(d, sep).len() == 1 {
                    lemma_cut_one(d, sep);
                }
            }
            assert(s.take(n) =~= d.take(n));
        } else {
            assert(d.take(n) =~= d);
            if sep(s.last()) {
                assert(s.take(n) =~= d);
            } else {
                assert(s.take(s.len() as int) =~= s);
                assert(d.push(s.last()) =~= s);
            }
        }
    }
}

/// A single piece is the whole text.
proof fn lemma_cut_one(s: Seq<char>, sep: spec_fn(char) -> bool)
    requires
        cut(s, sep).len() == 1,
    ensures
        cut(s, sep)[0] == s,
    decreases s.len(),
{
    if s.len() > 0 {
        lemma_cut_nonempty(s.drop_last(), sep);
        lemma_cut_one(s.drop_last(), sep);
        assert(s.drop_last().push(s.last()) =~= s);
    }
}

/// The last piece reaches back to the last separator.
proof fn lemma_last_piece(s: Seq<char>, sep: spec_fn(char) -> bool)
    ensures
        cut(s, sep).len() > 0,
        cut(s, sep).last().len() <= s.len(),
        cut(s, sep).last() == s.skip(s.len() - cut(s, sep).last().len()),
    decreases s.len(),
{
    if s.len() > 0 {
        let d = s.drop_last();
        lemma_last_piece(d, sep);
        let n = cut(d, sep).last().len();
        if !sep(s.last()) {
            assert(s.skip(s.len() - (n + 1)) =~= d.skip(d.len() - n).push(s.last()));
        } else {
            assert(s.skip(s.len() as int) =~= Seq::<char>::empty());
        }
    } else {
        assert(s.skip(0) =~= s);
    }
}

/// Every piece is a stretch of the text between two separators or ends.
proof fn lemma_piece_span(s: Seq<char>, sep: spec_fn(char) -> bool, k: int) -> (a: int)
    requires
        0 <= k < cut(s, sep).len(),
    ensures
        0 <= a <= a + cut(s, sep)[k].len() <= s.len(),
        cut(s, sep)[k] == s.subrange(a, a + cut(s, sep)[k].len()),
        a == 0 || sep(s[a - 1]),
        k == cut(s, sep).len() - 1 <==> a + cut(s, sep)[k].len() == s.len(),
        a + cut(s, sep)[k].len() == s.len() || sep(s[a + cut(s, sep)[k].len()]),
    decreases s.len(),
{
    if s.len() == 0 {
        assert(s.subrange(0, 0) =~= s);
        0
    } else {
        let d = s.drop_last();
        let head = cut(d, sep);
        lemma_cut_nonempty(d, sep);
        if k == head.len() {
            assert(s.subrange(s.len() as int, s.len() as int) =~= Seq::<char>::empty());
            s.len() as int
        } else {
            let a = lemma_piece_span(d, sep, k);
            let n = head[k].len();
            if k == head.len() - 1 && !sep(s.last()) {
                assert(s.subrange(a, a + n + 1) =~= d.subrange(a, a + n).push(s.last()));
            } else {
                assert(s.subrange(a, a + n) =~= d.subrange(a, a + n));
                assert(cut(s, sep)[k] == head[k]);
            }
            a
        }
    }
}

/// Whatever follows a separator starts a piece; whatever precedes it ends one.
proof fn lemma_pieces_around(s: Seq<char>, sep: spec_fn(char) -> bool, i: int)
    requires
        0 <= i < s.len(),
        sep(s[i]),
    ensures
        cut(s, sep).contains(cut(s.skip(i + 1), sep)[0]),
        cut(s, sep).contains(cut(s.take(i), sep).last()),
{
    let (l, r) = (s.take(i), s.skip(i + 1));
    assert(s =~= l + seq![s[i]] + r);
    lemma_cut_at(l, s[i], r, sep);
    lemma_cut_nonempty(l, sep);
    lemma_cut_nonempty(r, sep);
    let all = cut(s, sep);
    assert(all[cut(l, sep).len() as int] == cut(r, sep)[0]);
    assert(all[cut(l, sep).len() - 1] == cut(l, sep).last());
}

proof fn lemma_ascii_width(c: char)
    requires
        c <= 'z',
    ensures
        char_width(c) == 1,
{
}

/// ASCII characters take one byte each.
proof fn lemma_ascii_bytes(s: Seq<char>)
    requires
        forall|i: int| 0 <= i < s.len() ==> #[trigger] s[i] <= 'z',
    ensures
        byte_len(s) == s.len(),
    decreases s.len(),
{
    if s.len() == 0 {
        reveal_with_fuel(vstd::utf8::encode_utf8, 1);
        assert(vstd::utf8::encode_utf8(s).len() == 0);
    } else {
        let d = s.drop_last();
        assert forall|i: int| 0 <= i < d.len() implies #[trigger] d[i] <= 'z' by {
            assert(s[i] <= 'z');
        }
        lemma_ascii_bytes(d);
        assert(s[s.len() - 1] <= 'z');
        lemma_ascii_width(s.last());
        lemma_byte_len_push(d, s.last());
        assert(d.push(s.last()) =~= s);
    }
}

// ---------------------------------------------------------------------------
// Hostnames
// ---------------------------------------------------------------------------

/// An ASCII letter, of either case, or a digit.
pub open spec fn letter_or_digit(c: char) -> bool {
    'a' <= c <= 'z' || 'A' <= c <= 'Z' || '0' <= c <= '9'
}

/// The form of a hostname: 1 to 253 letters, digits, hyphens and dots; dots
/// neither at an end nor next to each other; hyphens neither at an end nor
/// next to a dot; and a dot in every stretch of 64 characters.
pub open spec fn hostname_form(name: Seq<char>) -> bool {
    &&& 0 < name.len() <= 253
    &&& forall|i: int|
        0 <= i < name.len() ==> letter_or_digit(#[trigger] name[i]) || name[i] == '-' || name[i]
            == '.'
    &&& letter_or_digit(name[0])
    &&& letter_or_digit(name[name.len() - 1])
    &&& forall|i: int, j: int|
        0 <= i < name.len() && j == i + 1 && j < name.len() ==> {
            &&& (#[trigger] name[i]) == '.' ==> letter_or_digit(#[trigger] name[j])
            &&& name[j] == '.' ==> letter_or_digit(name[i])
        }
    &&& forall|i: int|
        0 <= i && i + 64 <= name.len() ==> (#[trigger] name.subrange(i, i + 64)).contains('.')
}

proof fn lemma_form_is_valid(name: Seq<char>)
    requires
        hostname_form(name),
    ensures
        valid_hostname(name),
{
    let sep = equals('.');
    let all = pieces(name, '.');
    assert forall|i: int| 0 <= i < name.len() implies #[trigger] name[i] <= 'z' by {
        assert(letter_or_digit(name[i]) || name[i] == '-' || name[i] == '.');
    }
    lemma_ascii_bytes(name);
    assert forall|k: int| 0 <= k < all.len() implies valid_label(#[trigger] all[k]) by {
        let p = all[k];
        let n = p.len() as int;
        let a = lemma_piece_span(name, sep, k);
        assert(p == name.subrange(a, a + n));
        assert forall|i: int| 0 <= i < n implies #[trigger] p[i] != '.' && (letter_or_digit(p[i])
            || p[i] == '-') && p[i] == name[a + i] by {
            lemma_cut_clean(name, sep, k, i);
            assert(letter_or_digit(name[a + i]) || name[a + i] == '-' || name[a + i] == '.');
        }
        if a > 0 {
            assert(name[a - 1] == '.');
        }
        if a + n < name.len() {
            assert(name[a + n] == '.');
        }
        if n == 0 {
            if a == 0 {
                assert(name[0] == '.');
            } else if a == name.len() {
                assert(name[name.len() - 1] == '.');
            } else {
                assert(name[a - 1] == '.' && name[a] == '.');
            }
        }
        assert(n > 0);
        assert(p[0] == name[a]);
        assert(p[n - 1] == name[a + n - 1]);
        if a > 0 {
            assert(name[a - 1] == '.' ==> letter_or_digit(name[a]));
        }
        if a + n < name.len() {
            assert(name[a + n] == '.' ==> letter_or_digit(name[a + n - 1]));
        }
        if n >= 64 {
            let run = name.subrange(a, a + 64);
            assert(run.contains('.'));
            let i = choose|i: int| 0 <= i < run.len() && run[i] == '.';
            assert(p[i] == '.');
        }
        assert forall|i: int| 0 <= i < p.len() implies #[trigger] p[i] <= 'z' by {
            assert(letter_or_digit(p[i]) || p[i] == '-');
        }
        lemma_ascii_bytes(p);
    }
}

/// The first character after a dot, or of the name.
proof fn lemma_after_dot(name: Seq<char>, i: int)
    requires
        valid_hostname(name),
        0 <= i <= name.len(),
        i == 0 || name[i - 1] == '.',
    ensures
        i < name.len(),
        letter_or_digit(name[i]),
        cut(name.skip(i), equals('.'))[0].len() <= 63,
{
    let sep = equals('.');
    let all = pieces(name, '.');
    let rest = name.skip(i);
    if i == 0 {
        assert(rest =~= name);
        lemma_cut_nonempty(name, sep);
        assert(all.contains(all[0]));
    } else {
        lemma_pieces_around(name, sep, i - 1);
    }
    let p = cut(rest, sep)[0];
    assert(all.contains(p));
    let k = choose|k: int| 0 <= k < all.len() && all[k] == p;
    assert(valid_label(all[k]));
    lemma_first_piece(rest, sep);
    assert(p[0] == rest[0]);
    lemma_label_bytes(p);
}

/// The last character before a dot, or of the name.
proof fn lemma_before_dot(name: Seq<char>, i: int)
    requires
        valid_hostname(name),
        0 <= i <= name.len(),
        i == name.len() || name[i] == '.',
    ensures
        0 < i,
        letter_or_digit(name[i - 1]),
{
    let sep = equals('.');
    let all = pieces(name, '.');
    let rest = name.take(i);
    if i == name.len() {
        assert(rest =~= name);
        lemma_cut_nonempty(name, sep);
        assert(all.contains(all[all.len() - 1]));
    } else {
        lemma_pieces_around(name, sep, i);
    }
    let p = cut(rest, sep).last();
    assert(all.contains(p));
    let k = choose|k: int| 0 <= k < all.len() && all[k] == p;
    assert(valid_label(all[k]));
    lemma_last_piece(rest, sep);
    assert(p[p.len() - 1] == rest[i - 1]);
}

proof fn lemma_label_bytes(l: Seq<char>)
    requires
        valid_label(l),
    ensures
        l.len() <= 63,
{
    assert forall|i: int| 0 <= i < l.len() implies #[trigger] l[i] <= 'z' by {}
    lemma_ascii_bytes(l);
}

proof fn lemma_valid_is_form(name: Seq<char>)
    requires
        valid_hostname(name),
    ensures
        hostname_form(name),
{
    let sep = equals('.');
    lemma_hostname_plain(name);
    assert forall|i: int| 0 <= i < name.len() implies #[trigger] name[i] <= 'z' by {}
    lemma_ascii_bytes(name);
    lemma_after_dot(name, 0);
    lemma_before_dot(name, name.len() as int);
    assert forall|i: int, j: int| 0 <= i < name.len() && j == i + 1 && j < name.len() implies {
        &&& (#[trigger] name[i]) == '.' ==> letter_or_digit(#[trigger] name[j])
        &&& name[j] == '.' ==> letter_or_digit(name[i])
    } by {
        if name[i] == '.' {
            lemma_after_dot(name, j);
        }
        if name[j] == '.' {
            lemma_before_dot(name, j);
        }
    }
    assert forall|i: int| 0 <= i && i + 64 <= name.len() implies (#[trigger] name.subrange(
        i,
        i + 64,
    )).contains('.') by {
        let run = name.subrange(i, i + 64);
        if !run.contains('.') {
            assert(run[0] == name[i]);
            let a = lemma_run_start(name, i);
            lemma_after_dot(name, a);
            let rest = name.skip(a);
            lemma_first_piece(rest, sep);
            let n = cut(rest, sep)[0].len() as int;
            if n < rest.len() {
                assert(name[a + n] == '.');
                if a + n >= i {
                    assert(run[a + n - i] == '.');
                }
            }
        }
    }
}

/// Where the stretch without a dot that holds position `i` starts.
proof fn lemma_run_start(name: Seq<char>, i: int) -> (a: int)
    requires
        0 <= i < name.len(),
        name[i] != '.',
    ensures
        0 <= a <= i,
        a == 0 || name[a - 1] == '.',
        forall|j: int| a <= j <= i ==> #[trigger] name[j] != '.',
    decreases i,
{
    if i == 0 || name[i - 1] == '.' {
        i
    } else {
        lemma_run_start(name, i - 1)
    }
}

/// A text is a hostname exactly if it has the form of one: every text of that
/// form is one, and nothing else is.
pub proof fn law_hostnames_have_the_form(name: Seq<char>)
    ensures
        valid_hostname(name) <==> hostname_form(name),
{
    if hostname_form(name) {
        lemma_form_is_valid(name);
    }
    if valid_hostname(name) {
        lemma_valid_is_form(name);
    }
}

/// Labels make a hostname: one or more texts of 1 to 63 letters, digits and
/// hyphens, without a hyphen at either end, joined by dots, if that comes to no
/// more than 253 characters.
pub proof fn law_labels_make_a_hostname(labels: Seq<Seq<char>>)
    requires
        labels.len() > 0,
        joined(labels, seq!['.']).len() <= 253,
        forall|k: int| 0 <= k < labels.len() ==> 1 <= (#[trigger] labels[k]).len() <= 63,
        forall|k: int|
            0 <= k < labels.len() ==> (#[trigger] labels[k])[0] != '-' && labels[k][labels[k].len()
                - 1] != '-',
        forall|k: int, i: int|
            0 <= k < labels.len() && 0 <= i < labels[k].len() ==> letter_or_digit(
                #[trigger] labels[k][i],
            ) || labels[k][i] == '-',
    ensures
        valid_hostname(joined(labels, seq!['.'])),
{
    let name = joined(labels, seq!['.']);
    assert forall|k: int| 0 <= k < labels.len() implies !(#[trigger] labels[k]).contains('.') by {
        if labels[k].contains('.') {
            let i = choose|i: int| 0 <= i < labels[k].len() && labels[k][i] == '.';
            assert(letter_or_digit(labels[k][i]) || labels[k][i] == '-');
        }
    }
    law_splitting_undoes_joining(labels, '.');
    lemma_joined_ascii(labels);
    lemma_ascii_bytes(name);
    assert(name.len() > 0) by {
        if name.len() == 0 {
            assert(pieces(name, '.') =~= seq![name]);
            assert(labels[0] == name);
        }
    }
    assert forall|k: int| 0 <= k < labels.len() implies valid_label(#[trigger] labels[k]) by {
        let l = labels[k];
        assert forall|i: int| 0 <= i < l.len() implies #[trigger] l[i] <= 'z' && (is_alnum(l[i])
            || l[i] == '-') by {
            assert(letter_or_digit(labels[k][i]) || labels[k][i] == '-');
        }
        lemma_ascii_bytes(l);
        assert(labels[k][0] != '-');
    }
}

proof fn lemma_joined_ascii(labels: Seq<Seq<char>>)
    requires
        forall|k: int, i: int|
            0 <= k < labels.len() && 0 <= i < labels[k].len() ==> letter_or_digit(
                #[trigger] labels[k][i],
            ) || labels[k][i] == '-',
    ensures
        forall|i: int|
            0 <= i < joined(labels, seq!['.']).len() ==> #[trigger] joined(labels, seq!['.'])[i]
                <= 'z',
    decreases labels.len(),
{
    let name = joined(labels, seq!['.']);
    if labels.len() > 0 {
        let d = labels.drop_last();
        let w = labels.last();
        assert forall|k: int, i: int| 0 <= k < d.len() && 0 <= i < d[k].len() implies letter_or_digit(
            #[trigger] d[k][i],
        ) || d[k][i] == '-' by {
            assert(d[k][i] == labels[k][i]);
        }
        lemma_joined_ascii(d);
        let head = joined(d, seq!['.']);
        assert forall|i: int| 0 <= i < w.len() implies #[trigger] w[i] <= 'z' by {
            assert(letter_or_digit(labels[labels.len() - 1][i]) || labels[labels.len() - 1][i]
                == '-');
        }
        if labels.len() > 1 {
            assert forall|i: int| 0 <= i < name.len() implies #[trigger] name[i] <= 'z' by {
                if i < head.len() {
                    assert(head[i] <= 'z');
                } else if i > head.len() {
                    assert(name[i] == w[i - head.len() - 1]);
                }
            }
        } else {
            assert(name == w);
        }
    }
}

/// Any letter or digit of a hostname may be replaced by any other letter or
/// digit: the result is again a hostname.
pub proof fn law_letters_and_digits_are_alike(name: Seq<char>, i: int, c: char)
    requires
        valid_hostname(name),
        0 <= i < name.len(),
        letter_or_digit(name[i]),
        'a' <= c <= 'z' || 'A' <= c <= 'Z' || '0' <= c <= '9',
    ensures
        valid_hostname(name.update(i, c)),
{
    let next = name.update(i, c);
    law_hostnames_have_the_form(name);
    assert forall|a: int, b: int| 0 <= a < next.len() && b == a + 1 && b < next.len() implies {
        &&& (#[trigger] next[a]) == '.' ==> letter_or_digit(#[trigger] next[b])
        &&& next[b] == '.' ==> letter_or_digit(next[a])
    } by {
        assert(name[a] == '.' ==> letter_or_digit(name[b]));
        assert(name[b] == '.' ==> letter_or_digit(name[a]));
    }
    assert forall|a: int| 0 <= a && a + 64 <= next.len() implies (#[trigger] next.subrange(
        a,
        a + 64,
    )).contains('.') by {
        let run = name.subrange(a, a + 64);
        assert(run.contains('.'));
        let j = choose|j: int| 0 <= j < run.len() && run[j] == '.';
        assert(next.subrange(a, a + 64)[j] == '.');
    }
    law_hostnames_have_the_form(next);
}

/// Two hostnames with a dot between them are a hostname, if that is not too
/// long.
pub proof fn law_hostnames_nest(a: Seq<char>, b: Seq<char>)
    requires
        a.len() + 1 + b.len() <= 253,
    ensures
        valid_hostname(a + seq!['.'] + b) <==> valid_hostname(a) && valid_hostname(b),
{
    let s = a + seq!['.'] + b;
    let sep = equals('.');
    lemma_cut_at(a, '.', b, sep);
    let (l, r) = (pieces(a, '.'), pieces(b, '.'));
    let all = pieces(s, '.');
    assert(all == l + r);
    lemma_cut_nonempty(a, sep);
    lemma_cut_nonempty(b, sep);
    if valid_hostname(s) {
        law_hostnames_have_the_form(s);
        assert forall|k: int| 0 <= k < l.len() implies valid_label(#[trigger] l[k]) by {
            assert(all[k] == l[k]);
        }
        assert forall|k: int| 0 <= k < r.len() implies valid_label(#[trigger] r[k]) by {
            assert(all[l.len() + k] == r[k]);
        }
        assert forall|i: int| 0 <= i < a.len() implies #[trigger] a[i] <= 'z' by {
            assert(s[i] == a[i]);
        }
        assert forall|i: int| 0 <= i < b.len() implies #[trigger] b[i] <= 'z' by {
            assert(s[a.len() + 1 + i] == b[i]);
        }
        lemma_ascii_bytes(a);
        lemma_ascii_bytes(b);
        if a.len() == 0 {
            assert(s[0] == '.');
        }
        if b.len() == 0 {
            assert(s[s.len() - 1] == '.');
        }
    }
    if valid_hostname(a) && valid_hostname(b) {
        lemma_hostname_plain(a);
        lemma_hostname_plain(b);
        assert forall|i: int| 0 <= i < s.len() implies #[trigger] s[i] <= 'z' by {
            if i < a.len() {
                assert(s[i] == a[i]);
            } else if i > a.len() {
                assert(s[i] == b[i - a.len() - 1]);
            }
        }
        lemma_ascii_bytes(s);
        assert forall|k: int| 0 <= k < all.len() implies valid_label(#[trigger] all[k]) by {
            if k < l.len() {
                assert(all[k] == l[k]);
            } else {
                assert(all[k] == r[k - l.len()]);
            }
        }
    }
}

/// A chain name is 1 to 28 letters, digits, underscores and hyphens, and every
/// such text is one.
pub proof fn law_chain_names_have_the_form(name: Seq<char>)
    ensures
        valid_chain_name(name) <==> 0 < name.len() <= 28 && forall|i: int|
            0 <= i < name.len() ==> letter_or_digit(#[trigger] name[i]) || name[i] == '_' || name[i]
                == '-',
{
    if forall|i: int|
        0 <= i < name.len() ==> letter_or_digit(#[trigger] name[i]) || name[i] == '_' || name[i]
            == '-' {
        assert forall|i: int| 0 <= i < name.len() implies #[trigger] name[i] <= 'z' by {
            assert(letter_or_digit(name[i]) || name[i] == '_' || name[i] == '-');
        }
        lemma_ascii_bytes(name);
    }
    if valid_chain_name(name) {
        assert forall|i: int| 0 <= i < name.len() implies letter_or_digit(#[trigger] name[i])
            || name[i] == '_' || name[i] == '-' by {}
    }
}

// ---------------------------------------------------------------------------
// Configurations
// ---------------------------------------------------------------------------

/// The settings of resolver and firewall are in range.
pub open spec fn settings_in_range(c: Config) -> bool {
    &&& c.resolver.servers@.len() > 0
    &&& c.resolver.server_name@.len() > 0
    &&& c.resolver.attempts >= 1
    &&& c.resolver.timeout_secs >= 1
    &&& c.endpoints@.len() > 0
    &&& c.firewall.production_chain@ != c.firewall.maintenance_chain@
    &&& valid_chain_name(c.firewall.production_chain@)
    &&& valid_chain_name(c.firewall.maintenance_chain@)
    &&& c.firewall.max_addresses >= 1
}

/// Endpoint `i` has a hostname that no earlier endpoint has.
pub open spec fn endpoint_in_order(c: Config, i: int) -> bool {
    &&& hostname_form(normalized(c.endpoints@[i].name@))
    &&& forall|j: int|
        0 <= j < i ==> normalized((#[trigger] c.endpoints@[j]).name@) != normalized(
            c.endpoints@[i].name@,
        )
}

/// A static host has at least one name, and all of them are hostnames.
pub open spec fn static_in_order(h: StaticHost) -> bool {
    &&& h.names@.len() > 0
    &&& forall|k: int|
        0 <= k < h.names@.len() ==> hostname_form(normalized((#[trigger] h.names@[k])@))
}

proof fn lemma_first_some_none(f: spec_fn(int) -> Option<Seq<char>>, from: int, to: int)
    requires
        forall|i: int| from <= i < to ==> #[trigger] f(i) is None,
    ensures
        first_some(f, from, to) is None,
    decreases to - from,
{
    if from < to {
        assert(f(from) is None);
        lemma_first_some_none(f, from + 1, to);
    }
}

proof fn lemma_first_some_at(f: spec_fn(int) -> Option<Seq<char>>, from: int, i: int, to: int)
    requires
        from <= i < to,
        f(i) is Some,
        forall|k: int| from <= k < i ==> #[trigger] f(k) is None,
    ensures
        first_some(f, from, to) == f(i),
    decreases i - from,
{
    if from < i {
        assert(f(from) is None);
        lemma_first_some_at(f, from + 1, i, to);
    }
}

proof fn lemma_endpoint_problem(c: Config, i: int)
    requires
        0 <= i < c.endpoints@.len(),
    ensures
        endpoint_problem(c.endpoints@, i) is None <==> endpoint_in_order(c, i),
{
    let names = names_of(c.endpoints@);
    law_hostnames_have_the_form(names[i]);
    if names.take(i).contains(names[i]) {
        let j = choose|j: int| 0 <= j < i && names.take(i)[j] == names[i];
        assert(normalized(c.endpoints@[j].name@) == names[i]);
    }
    if !endpoint_in_order(c, i) && hostname_form(names[i]) {
        let j = choose|j: int|
            0 <= j < i && normalized((#[trigger] c.endpoints@[j]).name@) == normalized(
                c.endpoints@[i].name@,
            );
        assert(names.take(i)[j] == names[i]);
    }
}

proof fn lemma_static_problem(h: StaticHost)
    ensures
        static_problem(h) is None <==> static_in_order(h),
{
    let f = |k: int| static_name_problem(h.names@, k);
    let n = h.names@.len() as int;
    assert forall|k: int| 0 <= k < n implies (#[trigger] f(k) is None <==> hostname_form(
        normalized(h.names@[k]@),
    )) by {
        law_hostnames_have_the_form(normalized(h.names@[k]@));
    }
    if static_problem(h) is None {
        assert forall|k: int| 0 <= k < n implies hostname_form(
            normalized((#[trigger] h.names@[k])@),
        ) by {
            lemma_none_found(f, 0, k, n);
            assert(f(k) is None);
        }
    }
    if static_in_order(h) {
        assert forall|k: int| 0 <= k < n implies #[trigger] f(k) is None by {
            assert(hostname_form(normalized(h.names@[k]@)));
        }
        lemma_first_some_none(f, 0, n);
    }
}

/// A configuration has no problem exactly if its settings are in range, its
/// endpoints have pairwise different hostnames, and its static hosts have
/// hostnames too. So every configuration of that kind is accepted, and each
/// single violation is refused.
pub proof fn law_config_is_accepted(c: Config)
    ensures
        config_problem(c) is None <==> {
            &&& settings_in_range(c)
            &&& forall|i: int|
                0 <= i < c.endpoints@.len() ==> #[trigger] endpoint_in_order(c, i)
            &&& forall|i: int|
                0 <= i < c.static_hosts@.len() ==> static_in_order(#[trigger] c.static_hosts@[i])
        },
{
    let f = |i: int| endpoint_problem(c.endpoints@, i);
    let g = |i: int| static_problem(c.static_hosts@[i]);
    let n = c.endpoints@.len() as int;
    let m = c.static_hosts@.len() as int;
    assert(resolver_problem(c.resolver) is None && n > 0 && firewall_problem(c.firewall) is None
        <==> settings_in_range(c));
    assert forall|i: int| 0 <= i < n implies (#[trigger] f(i) is None <==> endpoint_in_order(c, i))
        by {
        lemma_endpoint_problem(c, i);
    }
    assert forall|i: int| 0 <= i < m implies (#[trigger] g(i) is None <==> static_in_order(
        c.static_hosts@[i],
    )) by {
        lemma_static_problem(c.static_hosts@[i]);
    }
    if config_problem(c) is None {
        assert forall|i: int| 0 <= i < n implies #[trigger] endpoint_in_order(c, i) by {
            lemma_none_found(f, 0, i, n);
            assert(f(i) is None);
        }
        assert forall|i: int| 0 <= i < m implies static_in_order(
            #[trigger] c.static_hosts@[i],
        ) by {
            lemma_none_found(g, 0, i, m);
            assert(g(i) is None);
        }
    }
    if forall|i: int| 0 <= i < n ==> #[trigger] endpoint_in_order(c, i) {
        assert forall|i: int| 0 <= i < n implies #[trigger] f(i) is None by {
            assert(endpoint_in_order(c, i));
        }
        lemma_first_some_none(f, 0, n);
    }
    if forall|i: int| 0 <= i < m ==> static_in_order(#[trigger] c.static_hosts@[i]) {
        assert forall|i: int| 0 <= i < m implies #[trigger] g(i) is None by {
            assert(static_in_order(c.static_hosts@[i]));
        }
        lemma_first_some_none(g, 0, m);
    }
}

/// What a refused configuration is told about its settings: the first setting
/// that is out of range, in this order.
pub proof fn law_first_setting_out_of_range_is_told(c: Config)
    ensures
        ({
            let p = config_problem(c);
            let (r, f) = (c.resolver, c.firewall);
            if r.servers@.len() == 0 {
                p == Some("resolver.servers must not be empty"@)
            } else if r.server_name@.len() == 0 {
                p == Some("resolver.server_name must not be empty"@)
            } else if r.attempts < 1 {
                p == Some("resolver.attempts must be >= 1"@)
            } else if r.timeout_secs < 1 {
                p == Some("resolver.timeout_secs must be >= 1"@)
            } else if c.endpoints@.len() == 0 {
                p == Some("at least one [[endpoint]] is required"@)
            } else if f.production_chain@ == f.maintenance_chain@ {
                p == Some("firewall chains must differ"@)
            } else if !valid_chain_name(f.production_chain@) {
                p == Some("invalid chain name "@ + debug_form(f.production_chain@))
            } else if !valid_chain_name(f.maintenance_chain@) {
                p == Some("invalid chain name "@ + debug_form(f.maintenance_chain@))
            } else {
                f.max_addresses < 1 ==> p == Some("firewall.max_addresses must be >= 1"@)
            }
        }),
{
}

/// What a refused configuration is told about its endpoints: the first one
/// that is out of order, and whether its name is no hostname or is taken.
pub proof fn law_first_bad_endpoint_is_told(c: Config, i: int)
    requires
        settings_in_range(c),
        0 <= i < c.endpoints@.len(),
        !endpoint_in_order(c, i),
        forall|j: int| 0 <= j < i ==> #[trigger] endpoint_in_order(c, j),
    ensures
        config_problem(c) == Some(
            (if hostname_form(normalized(c.endpoints@[i].name@)) {
                "duplicate endpoint "@
            } else {
                "invalid endpoint name "@
            }) + debug_form(c.endpoints@[i].name@),
        ),
{
    let f = |k: int| endpoint_problem(c.endpoints@, k);
    lemma_endpoint_problem(c, i);
    law_hostnames_have_the_form(normalized(c.endpoints@[i].name@));
    assert forall|k: int| 0 <= k < i implies #[trigger] f(k) is None by {
        assert(endpoint_in_order(c, k));
        lemma_endpoint_problem(c, k);
    }
    lemma_first_some_at(f, 0, i, c.endpoints@.len() as int);
}

/// What a refused configuration is told about its static hosts: the first one
/// without names, or the first name that is no hostname.
pub proof fn law_first_bad_static_host_is_told(c: Config, i: int, k: int)
    requires
        settings_in_range(c),
        forall|j: int| 0 <= j < c.endpoints@.len() ==> #[trigger] endpoint_in_order(c, j),
        0 <= i < c.static_hosts@.len(),
        forall|j: int| 0 <= j < i ==> static_in_order(#[trigger] c.static_hosts@[j]),
    ensures
        c.static_hosts@[i].names@.len() == 0 ==> config_problem(c) == Some(
            "static_host "@ + addr_text(c.static_hosts@[i].ip) + " has no names"@,
        ),
        0 <= k < c.static_hosts@[i].names@.len() && !hostname_form(
            normalized(c.static_hosts@[i].names@[k]@),
        ) && (forall|q: int|
            0 <= q < k ==> hostname_form(normalized((#[trigger] c.static_hosts@[i].names@[q])@)))
            ==> config_problem(c) == Some(
            "invalid static_host name "@ + debug_form(c.static_hosts@[i].names@[k]@),
        ),
{
    let f = |j: int| endpoint_problem(c.endpoints@, j);
    let g = |j: int| static_problem(c.static_hosts@[j]);
    let h = c.static_hosts@[i];
    let e = |q: int| static_name_problem(h.names@, q);
    assert forall|j: int| 0 <= j < c.endpoints@.len() implies #[trigger] f(j) is None by {
        assert(endpoint_in_order(c, j));
        lemma_endpoint_problem(c, j);
    }
    lemma_first_some_none(f, 0, c.endpoints@.len() as int);
    assert forall|j: int| 0 <= j < i implies #[trigger] g(j) is None by {
        assert(static_in_order(c.static_hosts@[j]));
        lemma_static_problem(c.static_hosts@[j]);
    }
    if h.names@.len() == 0 {
        lemma_first_some_at(g, 0, i, c.static_hosts@.len() as int);
    } else if 0 <= k < h.names@.len() && !hostname_form(normalized(h.names@[k]@)) && (forall|q: int|
        0 <= q < k ==> hostname_form(normalized((#[trigger] h.names@[q])@))) {
        law_hostnames_have_the_form(normalized(h.names@[k]@));
        assert forall|q: int| 0 <= q < k implies #[trigger] e(q) is None by {
            assert(hostname_form(normalized(h.names@[q]@)));
            law_hostnames_have_the_form(normalized(h.names@[q]@));
        }
        lemma_first_some_at(e, 0, k, h.names@.len() as int);
        lemma_first_some_at(g, 0, i, c.static_hosts@.len() as int);
    }
}

} // verus!
