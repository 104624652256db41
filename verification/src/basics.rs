//! What texts, numerals, addresses and their order promise, said of the
//! characters themselves.

use vstd::prelude::*;

use crate::addr::{addr_text, addr_value, octet, octet_texts, octet_value, Ipv4Addr};
use crate::config::normalized;
use crate::number::{
    all_digits, digits_value, lemma_numeral_digits, lemma_numeral_value, numeral, signed_numeral,
    u64_value,
};
use crate::order::{addr_lt, ascending, name_lt, precedes};
use crate::text::{
    byte_len, char_width, cut, equals, is_alnum, is_blank, joined, lemma_byte_len_push,
    lemma_cut_at, lemma_cut_clean, lemma_cut_joined, lemma_cut_nonempty, lemma_cut_whole,
    lower_char, lowered, pieces, stands_at, stripped_end, trimmed, trimmed_end, trimmed_start,
    words,
};

verus! {

// ---------------------------------------------------------------------------
// Characters
// ---------------------------------------------------------------------------

/// White space is what Unicode calls so; letters and digits are the ASCII ones;
/// only `A` to `Z` have a lower case, 32 places further on.
pub proof fn law_character_classes(c: char)
    ensures
        is_blank(c) <==> c == '\t' || c == '\n' || c == '\u{b}' || c == '\u{c}' || c == '\r' || c
            == ' ' || c == '\u{85}' || c == '\u{a0}' || c == '\u{1680}' || '\u{2000}' <= c
            <= '\u{200a}' || c == '\u{2028}' || c == '\u{2029}' || c == '\u{202f}' || c
            == '\u{205f}' || c == '\u{3000}',
        is_alnum(c) <==> 'a' <= c <= 'z' || 'A' <= c <= 'Z' || '0' <= c <= '9',
        'A' <= c <= 'Z' ==> lower_char(c) as u32 == c as u32 + 32,
        !('A' <= c <= 'Z') ==> lower_char(c) == c,
{
}

/// Lowering a text keeps its length and lowers each character.
pub proof fn law_lowering(s: Seq<char>, i: int)
    requires
        0 <= i < s.len(),
    ensures
        lowered(s).len() == s.len(),
        lowered(s)[i] == lower_char(s[i]),
{
}

/// The length in bytes: each character takes one to four, by its code point.
pub proof fn law_bytes(s: Seq<char>, c: char)
    ensures
        byte_len(Seq::<char>::empty()) == 0,
        byte_len(s.push(c)) == byte_len(s) + (if c <= '\u{7f}' {
            1int
        } else if c <= '\u{7ff}' {
            2
        } else if c <= '\u{ffff}' {
            3
        } else {
            4
        }),
{
    lemma_byte_len_push(s, c);
    lemma_width(c);
    reveal_with_fuel(vstd::utf8::encode_utf8, 1);
    assert(vstd::utf8::encode_utf8(Seq::<char>::empty()).len() == 0);
}

proof fn lemma_width(c: char)
    ensures
        char_width(c) == (if c <= '\u{7f}' {
            1int
        } else if c <= '\u{7ff}' {
            2
        } else if c <= '\u{ffff}' {
            3
        } else {
            4
        }),
{
}

// ---------------------------------------------------------------------------
// Trimming
// ---------------------------------------------------------------------------

/// White space only.
pub open spec fn all_blank(s: Seq<char>) -> bool {
    forall|i: int| 0 <= i < s.len() ==> is_blank(#[trigger] s[i])
}

proof fn lemma_trim_front(a: Seq<char>, s: Seq<char>)
    requires
        all_blank(a),
        s.len() > 0 ==> !is_blank(s[0]),
    ensures
        trimmed_start(a + s) == s,
    decreases a.len(),
{
    let t = a + s;
    if a.len() == 0 {
        assert(t =~= s);
    } else {
        let rest = a.skip(1);
        assert(is_blank(a[0]) && t[0] == a[0]);
        assert forall|i: int| 0 <= i < rest.len() implies is_blank(#[trigger] rest[i]) by {
            assert(is_blank(a[i + 1]));
        }
        assert(t.skip(1) =~= rest + s);
        lemma_trim_front(rest, s);
    }
}

proof fn lemma_trim_back(s: Seq<char>, b: Seq<char>)
    requires
        all_blank(b),
        s.len() > 0 ==> !is_blank(s.last()),
    ensures
        trimmed_end(s + b) == s,
    decreases b.len(),
{
    let t = s + b;
    if b.len() == 0 {
        assert(t =~= s);
    } else {
        let rest = b.drop_last();
        assert(is_blank(b[b.len() - 1]) && t.last() == b.last());
        assert forall|i: int| 0 <= i < rest.len() implies is_blank(#[trigger] rest[i]) by {
            assert(is_blank(b[i]));
        }
        assert(t.drop_last() =~= s + rest);
        lemma_trim_back(s, rest);
    }
}

proof fn lemma_strip(s: Seq<char>, dots: Seq<char>, c: char)
    requires
        forall|i: int| 0 <= i < dots.len() ==> #[trigger] dots[i] == c,
        s.len() > 0 ==> s.last() != c,
    ensures
        stripped_end(s + dots, c) == s,
    decreases dots.len(),
{
    let t = s + dots;
    if dots.len() == 0 {
        assert(t =~= s);
    } else {
        let rest = dots.drop_last();
        assert(dots[dots.len() - 1] == c && t.last() == c);
        assert(t.drop_last() =~= s + rest);
        lemma_strip(s, rest, c);
    }
}

/// Trimming takes away the white space at both ends and nothing else.
pub proof fn law_trimming(a: Seq<char>, core: Seq<char>, b: Seq<char>)
    requires
        all_blank(a),
        all_blank(b),
        core.len() > 0 ==> !is_blank(core[0]) && !is_blank(core[core.len() - 1]),
    ensures
        trimmed(a + core + b) == core,
{
    assert(a + core + b =~= a + (core + b));
    if core.len() > 0 {
        assert((core + b)[0] == core[0]);
        lemma_trim_front(a, core + b);
        lemma_trim_back(core, b);
    } else {
        let all = a + b;
        assert forall|i: int| 0 <= i < all.len() implies is_blank(#[trigger] all[i]) by {
            if i < a.len() {
                assert(is_blank(a[i]));
            } else {
                assert(is_blank(b[i - a.len()]));
            }
        }
        assert(a + core + b =~= all);
        assert(all + Seq::<char>::empty() =~= all);
        lemma_trim_front(all, Seq::empty());
        assert(core =~= Seq::<char>::empty());
    }
}

/// Stripping a character takes all of it away from the end and nothing else.
pub proof fn law_stripping(s: Seq<char>, tail: Seq<char>, c: char)
    requires
        forall|i: int| 0 <= i < tail.len() ==> #[trigger] tail[i] == c,
        s.len() > 0 ==> s[s.len() - 1] != c,
    ensures
        stripped_end(s + tail, c) == s,
{
    lemma_strip(s, tail, c);
}

/// A pattern stands where all its characters do.
pub proof fn law_standing_at(pat: Seq<char>, s: Seq<char>, i: int)
    ensures
        stands_at(pat, s, i) <==> 0 <= i && i + pat.len() <= s.len() && forall|k: int|
            0 <= k < pat.len() ==> s[i + k] == #[trigger] pat[k],
{
    if 0 <= i && i + pat.len() <= s.len() {
        let t = s.subrange(i, i + pat.len());
        if t == pat {
            assert forall|k: int| 0 <= k < pat.len() implies s[i + k] == #[trigger] pat[k] by {
                assert(t[k] == pat[k]);
            }
        }
        if forall|k: int| 0 <= k < pat.len() ==> s[i + k] == #[trigger] pat[k] {
            assert(t =~= pat);
        }
    }
}

/// Every text is white space, a core that neither starts nor ends with any, and
/// white space again.
pub proof fn law_every_text_can_be_trimmed(s: Seq<char>) -> (r: (Seq<char>, Seq<char>))
    ensures
        s == r.0 + trimmed(s) + r.1,
        all_blank(r.0),
        all_blank(r.1),
{
    let a = lemma_front(s);
    let b = lemma_back(trimmed_start(s));
    assert(s =~= a + trimmed(s) + b);
    (a, b)
}

proof fn lemma_front(s: Seq<char>) -> (a: Seq<char>)
    ensures
        s == a + trimmed_start(s),
        all_blank(a),
    decreases s.len(),
{
    if s.len() > 0 && is_blank(s.first()) {
        let a = lemma_front(s.skip(1));
        let r = seq![s.first()] + a;
        assert forall|i: int| 0 <= i < r.len() implies is_blank(#[trigger] r[i]) by {
            if i > 0 {
                assert(is_blank(a[i - 1]));
            }
        }
        let t = trimmed_start(s);
        assert(s =~= seq![s.first()] + s.skip(1));
        assert(s.skip(1) == a + t);
        assert(seq![s.first()] + (a + t) =~= r + t);
        r
    } else {
        assert(s =~= Seq::<char>::empty() + s);
        Seq::empty()
    }
}

proof fn lemma_back(s: Seq<char>) -> (b: Seq<char>)
    ensures
        s == trimmed_end(s) + b,
        all_blank(b),
    decreases s.len(),
{
    if s.len() > 0 && is_blank(s.last()) {
        let b = lemma_back(s.drop_last());
        let r = b.push(s.last());
        assert forall|i: int| 0 <= i < r.len() implies is_blank(#[trigger] r[i]) by {
            if i < b.len() {
                assert(is_blank(b[i]));
            }
        }
        let t = trimmed_end(s);
        assert(s =~= s.drop_last().push(s.last()));
        assert(s.drop_last() == t + b);
        assert((t + b).push(s.last()) =~= t + r);
        r
    } else {
        assert(s =~= s + Seq::<char>::empty());
        Seq::empty()
    }
}

/// Normalizing a name takes away the white space around it, then all dots at
/// its end, and lowers every letter that is left. Nothing else changes.
pub proof fn law_normalizing(a: Seq<char>, core: Seq<char>, dots: Seq<char>, b: Seq<char>)
    requires
        all_blank(a),
        all_blank(b),
        forall|i: int| 0 <= i < dots.len() ==> #[trigger] dots[i] == '.',
        core.len() > 0 ==> !is_blank(core[0]) && core[core.len() - 1] != '.',
        core.len() > 0 && dots.len() == 0 ==> !is_blank(core[core.len() - 1]),
    ensures
        normalized(a + (core + dots) + b) == lowered(core),
{
    let full = core + dots;
    if full.len() > 0 {
        if core.len() > 0 {
            assert(full[0] == core[0]);
        } else {
            assert(full[0] == dots[0]);
        }
        if dots.len() > 0 {
            assert(full[full.len() - 1] == dots[dots.len() - 1]);
        } else {
            assert(full[full.len() - 1] == core[core.len() - 1]);
        }
    }
    law_trimming(a, full, b);
    lemma_strip(core, dots, '.');
}

// ---------------------------------------------------------------------------
// Numerals
// ---------------------------------------------------------------------------

/// A numeral is made of the characters `0` to `9`, starts with `0` only if it
/// is the numeral of zero, and reads back as the number it was made from.
pub proof fn law_numerals(n: nat)
    ensures
        numeral(n).len() > 0,
        forall|i: int| 0 <= i < numeral(n).len() ==> '0' <= #[trigger] numeral(n)[i] <= '9',
        numeral(n)[0] == '0' ==> n == 0 && numeral(n).len() == 1,
        digits_value(numeral(n)) == n,
    decreases n,
{
    lemma_numeral_digits(n);
    lemma_numeral_value(n);
    if n >= 10 {
        law_numerals(n / 10);
        assert(numeral(n)[0] == numeral(n / 10)[0]);
    }
}

/// What digits stand for: one digit more multiplies by ten and adds the digit.
pub proof fn law_digits(s: Seq<char>, c: char)
    requires
        '0' <= c <= '9',
    ensures
        digits_value(Seq::<char>::empty()) == 0,
        digits_value(s.push(c)) == 10 * digits_value(s) + (c as u32 - '0' as u32),
{
    assert(s.push(c).drop_last() =~= s);
}

/// A negative number is shown as a minus sign and the numeral of its opposite,
/// any other number as its numeral.
pub proof fn law_signed_numerals(n: nat)
    ensures
        signed_numeral(n as int) == numeral(n),
        n > 0 ==> signed_numeral(-n) == seq!['-'] + numeral(n),
{
}

/// Which texts are read as unsigned numbers: one or more of the characters `0`
/// to `9`, after at most one `+`, standing for that number, which must fit.
pub proof fn law_reading_numbers(s: Seq<char>, d: Seq<char>)
    requires
        s == d || s == seq!['+'] + d,
    ensures
        d.len() > 0 && (forall|i: int| 0 <= i < d.len() ==> '0' <= #[trigger] d[i] <= '9') ==> {
            u64_value(s) == (if digits_value(d) <= u64::MAX {
                Some(digits_value(d) as u64)
            } else {
                None
            })
        },
        d.len() == 0 ==> u64_value(s) is None,
        s == d && (exists|i: int|
            0 <= i < d.len() && !('0' <= #[trigger] d[i] <= '9') && (i > 0 || d[i] != '+'))
            ==> u64_value(s) is None,
{
    if s != d {
        assert(s.skip(1) =~= d);
    }
    if d.len() > 0 && (forall|i: int| 0 <= i < d.len() ==> '0' <= #[trigger] d[i] <= '9') {
        assert(all_digits(d));
        assert(d[0] != '+');
    }
    if s == d && (exists|i: int|
        0 <= i < d.len() && !('0' <= #[trigger] d[i] <= '9') && (i > 0 || d[i] != '+')) {
        let i = choose|i: int|
            0 <= i < d.len() && !('0' <= #[trigger] d[i] <= '9') && (i > 0 || d[i] != '+');
        if d[0] == '+' {
            assert(d.skip(1)[i - 1] == d[i]);
        }
    }
}

// ---------------------------------------------------------------------------
// Splitting and joining
// ---------------------------------------------------------------------------

/// Joining puts the separator between neighbours and nowhere else.
pub proof fn law_joining(parts: Seq<Seq<char>>, x: Seq<char>, sep: Seq<char>)
    ensures
        joined(Seq::empty(), sep) == Seq::<char>::empty(),
        joined(seq![x], sep) == x,
        parts.len() > 0 ==> joined(parts.push(x), sep) == joined(parts, sep) + sep + x,
{
    assert(parts.push(x).drop_last() =~= parts);
}

/// Splitting at a character loses nothing: the pieces hold no such character,
/// and joined with it they are the text again. And it undoes joining.
pub proof fn law_splitting(s: Seq<char>, c: char)
    ensures
        pieces(s, c).len() > 0,
        joined(pieces(s, c), seq![c]) == s,
        forall|k: int| 0 <= k < pieces(s, c).len() ==> !(#[trigger] pieces(s, c)[k]).contains(c),
{
    let all = pieces(s, c);
    lemma_cut_nonempty(s, equals(c));
    lemma_joined_pieces(s, c);
    assert forall|k: int| 0 <= k < all.len() implies !(#[trigger] all[k]).contains(c) by {
        if all[k].contains(c) {
            let i = choose|i: int| 0 <= i < all[k].len() && all[k][i] == c;
            lemma_cut_clean(s, equals(c), k, i);
        }
    }
}

proof fn lemma_joined_pieces(s: Seq<char>, c: char)
    ensures
        joined(pieces(s, c), seq![c]) == s,
    decreases s.len(),
{
    if s.len() > 0 {
        let d = s.drop_last();
        let head = pieces(d, c);
        lemma_cut_nonempty(d, equals(c));
        lemma_joined_pieces(d, c);
        if s.last() == c {
            assert(head.push(Seq::empty()).drop_last() =~= head);
            assert(d + seq![c] + Seq::<char>::empty() =~= s);
        } else {
            let grown = head.last().push(s.last());
            assert(head.drop_last().push(grown).drop_last() =~= head.drop_last());
            if head.len() == 1 {
                assert(pieces(s, c) =~= seq![grown]);
                assert(head[0] == head.last());
                assert(grown =~= s);
            } else {
                let front = joined(head.drop_last(), seq![c]) + seq![c];
                assert(d == front + head.last());
                assert(s =~= d.push(s.last()));
                assert((front + head.last()).push(s.last()) =~= front + grown);
            }
        }
    }
}

/// Splitting undoes joining, if no part holds the separator.
pub proof fn law_splitting_undoes_joining(parts: Seq<Seq<char>>, c: char)
    requires
        parts.len() > 0,
        forall|k: int| 0 <= k < parts.len() ==> !(#[trigger] parts[k]).contains(c),
    ensures
        pieces(joined(parts, seq![c]), c) == parts,
{
    let sep = equals(c);
    assert forall|k: int, i: int| 0 <= k < parts.len() && 0 <= i < parts[k].len() implies !#[trigger] sep(
        parts[k][i],
    ) by {
        if parts[k][i] == c {
            assert(parts[k].contains(c));
        }
    }
    lemma_cut_joined(parts, c, sep);
}

/// Words are the stretches without white space: a text without any is one word,
/// no text is no word, and white space parts the words before it from those
/// after it.
pub proof fn law_words(a: Seq<char>, c: char, b: Seq<char>)
    requires
        is_blank(c),
    ensures
        words(Seq::empty()) == Seq::<Seq<char>>::empty(),
        a.len() > 0 && (forall|i: int| 0 <= i < a.len() ==> !is_blank(#[trigger] a[i])) ==> words(a)
            == seq![a],
        words(a + seq![c] + b) == words(a) + words(b),
{
    let sep = |x: char| is_blank(x);
    let full = |w: Seq<char>| w.len() > 0;
    let none = Seq::<char>::empty();
    assert(cut(none, sep) =~= seq![none]);
    reveal_with_fuel(Seq::filter, 2);
    assert(seq![none].drop_last() =~= Seq::<Seq<char>>::empty());
    assert(seq![none].filter(full) =~= Seq::<Seq<char>>::empty());
    if a.len() > 0 && (forall|i: int| 0 <= i < a.len() ==> !is_blank(#[trigger] a[i])) {
        assert forall|i: int| 0 <= i < a.len() implies !#[trigger] sep(a[i]) by {
            assert(!is_blank(a[i]));
        }
        lemma_cut_whole(a, sep);
        assert(seq![a].drop_last() =~= Seq::<Seq<char>>::empty());
        assert(seq![a].filter(full) =~= seq![a]);
    }
    lemma_cut_at(a, c, b, sep);
    Seq::filter_distributes_over_add(cut(a, sep), cut(b, sep), full);
}

// ---------------------------------------------------------------------------
// Addresses
// ---------------------------------------------------------------------------

/// The text of an address is the numerals of its four octets, the highest
/// first, with dots between them.
pub proof fn law_address_text(a: Ipv4Addr)
    ensures
        ({
            let p = pieces(addr_text(a), '.');
            let n = a.bits as nat;
            &&& p.len() == 4
            &&& p[0] == numeral(n / 0x100_0000)
            &&& p[1] == numeral(n / 0x1_0000 % 0x100)
            &&& p[2] == numeral(n / 0x100 % 0x100)
            &&& p[3] == numeral(n % 0x100)
        }),
{
    let parts = octet_texts(a);
    assert forall|k: int| 0 <= k < parts.len() implies !(#[trigger] parts[k]).contains('.') by {
        law_numerals(octet(a, k));
        if parts[k].contains('.') {
            let i = choose|i: int| 0 <= i < parts[k].len() && parts[k][i] == '.';
            assert('0' <= numeral(octet(a, k))[i]);
        }
    }
    law_splitting_undoes_joining(parts, '.');
}

/// A text denotes an address only if it is the text of that address.
pub proof fn law_only_address_texts_are_addresses(s: Seq<char>, a: Ipv4Addr)
    requires
        addr_value(s) == Some(a),
    ensures
        s == addr_text(a),
{
    let p = pieces(s, '.');
    law_splitting(s, '.');
    let (x, y, z, w) = (
        octet_value(p[0])->0,
        octet_value(p[1])->0,
        octet_value(p[2])->0,
        octet_value(p[3])->0,
    );
    lemma_octet_text(p[0]);
    lemma_octet_text(p[1]);
    lemma_octet_text(p[2]);
    lemma_octet_text(p[3]);
    lemma_octets(a, x, y, z, w);
    assert(octet_texts(a) =~= p);
}

proof fn lemma_octets(a: Ipv4Addr, x: nat, y: nat, z: nat, w: nat)
    requires
        x <= 255,
        y <= 255,
        z <= 255,
        w <= 255,
        a.bits == (x * 0x100_0000 + y * 0x1_0000 + z * 0x100 + w) as u32,
    ensures
        octet(a, 0) == x,
        octet(a, 1) == y,
        octet(a, 2) == z,
        octet(a, 3) == w,
{
    let n = (x * 0x100_0000 + y * 0x1_0000 + z * 0x100 + w) as int;
    assert(n <= u32::MAX);
    assert(a.bits == n);
    let (p, q) = ((x * 0x100 + y) as int, (x * 0x1_0000 + y * 0x100 + z) as int);
    vstd::arithmetic::div_mod::lemma_fundamental_div_mod_converse(
        n,
        0x100_0000,
        x as int,
        (y * 0x1_0000 + z * 0x100 + w) as int,
    );
    vstd::arithmetic::div_mod::lemma_fundamental_div_mod_converse(
        n,
        0x1_0000,
        p,
        (z * 0x100 + w) as int,
    );
    vstd::arithmetic::div_mod::lemma_fundamental_div_mod_converse(n, 0x100, q, w as int);
    vstd::arithmetic::div_mod::lemma_fundamental_div_mod_converse(p, 0x100, x as int, y as int);
    vstd::arithmetic::div_mod::lemma_fundamental_div_mod_converse(q, 0x100, p, z as int);
}

/// An octet's text is its numeral.
proof fn lemma_octet_text(s: Seq<char>)
    requires
        octet_value(s) is Some,
    ensures
        octet_value(s)->0 <= 255,
        numeral(octet_value(s)->0) == s,
{
    lemma_digits_numeral(s);
}

/// Digits without a superfluous leading zero are the numeral of their value.
proof fn lemma_digits_numeral(s: Seq<char>)
    requires
        s.len() > 0,
        all_digits(s),
        s.len() == 1 || s[0] != '0',
    ensures
        numeral(digits_value(s)) == s,
        s.len() > 1 ==> digits_value(s) >= 10,
        s[0] != '0' ==> digits_value(s) > 0,
    decreases s.len(),
{
    let d = s.drop_last();
    let c = s.last();
    assert(s[s.len() - 1] == c && '0' <= c <= '9');
    lemma_digit(c);
    if s.len() == 1 {
        assert(d =~= Seq::<char>::empty());
        assert(digits_value(d) == 0);
        assert(numeral(digits_value(s)) =~= s);
    } else {
        assert forall|i: int| 0 <= i < d.len() implies '0' <= #[trigger] d[i] <= '9' by {
            assert(d[i] == s[i]);
        }
        assert(all_digits(d));
        lemma_digits_numeral(d);
        let v = digits_value(s);
        assert(v / 10 == digits_value(d));
        assert(v >= 10);
        assert(numeral(v) =~= s);
    }
}

proof fn lemma_digit(c: char)
    requires
        '0' <= c <= '9',
    ensures
        (('0' as u32 + (c as u32 - '0' as u32) as nat) as char) == c,
        0 <= c as u32 - '0' as u32 <= 9,
{
}

// ---------------------------------------------------------------------------
// Order
// ---------------------------------------------------------------------------

/// One text comes before another exactly if, behind what they have in common,
/// it ends and the other does not, or its next character is the smaller one.
pub proof fn law_text_order(a: Seq<char>, b: Seq<char>, k: int)
    requires
        0 <= k <= a.len(),
        k <= b.len(),
        a.take(k) == b.take(k),
        k == a.len() || k == b.len() || a[k] != b[k],
    ensures
        precedes(a, b) <==> k < b.len() && (k == a.len() || a[k] < b[k]),
    decreases k,
{
    if k > 0 {
        assert(a.take(k)[0] == a[0] && b.take(k)[0] == b[0]);
        let (x, y) = (a.skip(1), b.skip(1));
        assert(x.take(k - 1) =~= a.take(k).skip(1));
        assert(y.take(k - 1) =~= b.take(k).skip(1));
        law_text_order(x, y, k - 1);
    }
}

/// Ascending means that every element comes before all later ones: by number
/// for addresses, by text for names.
pub proof fn law_ascending(a: Seq<Ipv4Addr>, b: Seq<Seq<char>>)
    ensures
        ascending(a, addr_lt()) <==> forall|i: int, j: int|
            0 <= i < j < a.len() ==> (#[trigger] a[i]).bits < (#[trigger] a[j]).bits,
        ascending(b, name_lt()) <==> forall|i: int, j: int|
            0 <= i < j < b.len() ==> precedes(#[trigger] b[i], #[trigger] b[j]),
{
    if forall|i: int, j: int|
        0 <= i < j < a.len() ==> (#[trigger] a[i]).bits < (#[trigger] a[j]).bits {
        assert forall|i: int, j: int| 0 <= i < j < a.len() implies #[trigger] addr_lt()(
            a[i],
            a[j],
        ) by {
            assert(a[i].bits < a[j].bits);
        }
    }
    if ascending(a, addr_lt()) {
        assert forall|i: int, j: int| 0 <= i < j < a.len() implies (#[trigger] a[i]).bits < (
        #[trigger] a[j]).bits by {
            assert(addr_lt()(a[i], a[j]));
        }
    }
    if forall|i: int, j: int|
        0 <= i < j < b.len() ==> precedes(#[trigger] b[i], #[trigger] b[j]) {
        assert forall|i: int, j: int| 0 <= i < j < b.len() implies #[trigger] name_lt()(
            b[i],
            b[j],
        ) by {
            assert(precedes(b[i], b[j]));
        }
    }
    if ascending(b, name_lt()) {
        assert forall|i: int, j: int| 0 <= i < j < b.len() implies precedes(
            #[trigger] b[i],
            #[trigger] b[j],
        ) by {
            assert(name_lt()(b[i], b[j]));
        }
    }
}

} // verus!
