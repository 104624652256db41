//! Text as sequences of characters: the handful of string operations the rest
//! of the crate needs, each with its meaning spelled out.

use vstd::prelude::*;

verus! {

/// `String::push` appends one character.
pub assume_specification[ String::push ](s: &mut String, c: char)
    ensures
        final(s)@ == old(s)@.push(c),
;

// ---------------------------------------------------------------------------
// Characters
// ---------------------------------------------------------------------------

/// The characters with the Unicode `White_Space` property.
pub open spec fn is_blank(c: char) -> bool {
    let n = c as u32;
    ||| 0x9 <= n <= 0xd
    ||| n == 0x20
    ||| n == 0x85
    ||| n == 0xa0
    ||| n == 0x1680
    ||| 0x2000 <= n <= 0x200a
    ||| n == 0x2028
    ||| n == 0x2029
    ||| n == 0x202f
    ||| n == 0x205f
    ||| n == 0x3000
}

/// ASCII letters and digits.
pub open spec fn is_alnum(c: char) -> bool {
    ||| '0' <= c <= '9'
    ||| 'a' <= c <= 'z'
    ||| 'A' <= c <= 'Z'
}

/// The lower-case form of an ASCII letter; every other character is its own.
pub open spec fn lower_char(c: char) -> char {
    if 'A' <= c <= 'Z' {
        (c as u32 + 32) as char
    } else {
        c
    }
}

pub fn blank(c: char) -> (r: bool)
    ensures
        r == is_blank(c),
{
    let n: u32 = c as u32;
    (0x9 <= n && n <= 0xd) || n == 0x20 || n == 0x85 || n == 0xa0 || n == 0x1680 || (0x2000 <= n
        && n <= 0x200a) || n == 0x2028 || n == 0x2029 || n == 0x202f || n == 0x205f || n == 0x3000
}

pub fn alnum(c: char) -> (r: bool)
    ensures
        r == is_alnum(c),
{
    ('0' <= c && c <= '9') || ('a' <= c && c <= 'z') || ('A' <= c && c <= 'Z')
}

fn to_lower_char(c: char) -> (r: char)
    ensures
        r == lower_char(c),
{
    if 'A' <= c && c <= 'Z' {
        let n: u8 = c as u8;
        (n + 32) as char
    } else {
        c
    }
}

// ---------------------------------------------------------------------------
// Moving between strings and characters
// ---------------------------------------------------------------------------

/// The views of a list of strings.
pub open spec fn texts(v: Seq<String>) -> Seq<Seq<char>> {
    v.map_values(|s: String| s@)
}

/// The view of an optional string.
pub open spec fn opt_text(o: Option<String>) -> Option<Seq<char>> {
    match o {
        Some(s) => Some(s@),
        None => None,
    }
}

/// The characters of a string.
pub fn chars(s: &str) -> (r: Vec<char>)
    ensures
        r@ == s@,
{
    let mut v: Vec<char> = Vec::new();
    for c in it: s.chars()
        invariant
            it.seq() == s@,
            v@ == s@.take(it.index() as int),
    {
        v.push(c);
    }
    v
}

/// The string made of `v[from..to]`.
pub fn range_text(v: &Vec<char>, from: usize, to: usize) -> (r: String)
    requires
        from <= to <= v@.len(),
    ensures
        r@ == v@.subrange(from as int, to as int),
{
    let mut s = String::new();
    let mut i: usize = from;
    while i < to
        invariant
            from <= i <= to <= v@.len(),
            s@ == v@.subrange(from as int, i as int),
        decreases to - i,
    {
        s.push(v[i]);
        i += 1;
    }
    s
}

/// Whether two strings hold the same characters.
pub fn same_text(a: &str, b: &str) -> (r: bool)
    ensures
        r == (a@ == b@),
{
    a.to_owned() == b.to_owned()
}

pub fn clone_opt(o: &Option<String>) -> (r: Option<String>)
    ensures
        opt_text(r) == opt_text(*o),
{
    match o {
        Some(s) => Some(s.clone()),
        None => None,
    }
}

// ---------------------------------------------------------------------------
// Trimming and case
// ---------------------------------------------------------------------------

/// `s` without its leading white space.
pub open spec fn trimmed_start(s: Seq<char>) -> Seq<char>
    decreases s.len(),
{
    if s.len() > 0 && is_blank(s.first()) {
        trimmed_start(s.skip(1))
    } else {
        s
    }
}

/// `s` without its trailing white space.
pub open spec fn trimmed_end(s: Seq<char>) -> Seq<char>
    decreases s.len(),
{
    if s.len() > 0 && is_blank(s.last()) {
        trimmed_end(s.drop_last())
    } else {
        s
    }
}

/// `s` without leading and trailing white space.
pub open spec fn trimmed(s: Seq<char>) -> Seq<char> {
    trimmed_end(trimmed_start(s))
}

/// `s` without any trailing `c`.
pub open spec fn stripped_end(s: Seq<char>, c: char) -> Seq<char>
    decreases s.len(),
{
    if s.len() > 0 && s.last() == c {
        stripped_end(s.drop_last(), c)
    } else {
        s
    }
}

/// `s` with every ASCII letter in lower case.
pub open spec fn lowered(s: Seq<char>) -> Seq<char> {
    s.map_values(|c: char| lower_char(c))
}

pub fn trim(s: &str) -> (r: String)
    ensures
        r@ == trimmed(s@),
{
    let v = chars(s);
    let mut i: usize = 0;
    assert(v@.skip(0) == v@);
    while i < v.len() && blank(v[i])
        invariant
            i <= v@.len(),
            trimmed_start(v@.skip(i as int)) == trimmed_start(v@),
        decreases v@.len() - i,
    {
        assert(v@.skip(i as int).skip(1) == v@.skip(i + 1));
        i += 1;
    }
    assert(trimmed_start(v@) == v@.skip(i as int));
    let mut j: usize = v.len();
    assert(v@.subrange(i as int, j as int) == v@.skip(i as int));
    while j > i && blank(v[j - 1])
        invariant
            i <= j <= v@.len(),
            trimmed_end(v@.subrange(i as int, j as int)) == trimmed(s@),
        decreases j,
    {
        assert(v@.subrange(i as int, j as int).drop_last() == v@.subrange(i as int, j - 1));
        j -= 1;
    }
    range_text(&v, i, j)
}

pub fn strip_end(s: &str, c: char) -> (r: String)
    ensures
        r@ == stripped_end(s@, c),
{
    let v = chars(s);
    let mut j: usize = v.len();
    assert(v@.subrange(0, j as int) == v@);
    while j > 0 && v[j - 1] == c
        invariant
            j <= v@.len(),
            stripped_end(v@.subrange(0, j as int), c) == stripped_end(v@, c),
        decreases j,
    {
        assert(v@.subrange(0, j as int).drop_last() == v@.subrange(0, j - 1));
        j -= 1;
    }
    range_text(&v, 0, j)
}

pub fn lower(s: &str) -> (r: String)
    ensures
        r@ == lowered(s@),
{
    let v = chars(s);
    let mut out = String::new();
    let mut i: usize = 0;
    while i < v.len()
        invariant
            i <= v@.len(),
            out@ == lowered(v@.take(i as int)),
        decreases v@.len() - i,
    {
        out.push(to_lower_char(v[i]));
        assert(v@.take(i + 1) == v@.take(i as int).push(v@[i as int]));
        i += 1;
    }
    assert(v@.take(i as int) == v@);
    out
}

// ---------------------------------------------------------------------------
// Splitting and joining
// ---------------------------------------------------------------------------

/// The pieces of `s` between the characters for which `sep` holds; one more
/// piece than there are separators.
pub open spec fn cut(s: Seq<char>, sep: spec_fn(char) -> bool) -> Seq<Seq<char>>
    decreases s.len(),
{
    if s.len() == 0 {
        seq![s]
    } else {
        let head = cut(s.drop_last(), sep);
        if sep(s.last()) {
            head.push(Seq::empty())
        } else {
            head.drop_last().push(head.last().push(s.last()))
        }
    }
}

/// Being the character `c`.
pub open spec fn equals(c: char) -> spec_fn(char) -> bool {
    |x: char| x == c
}

/// The pieces of `s` between the occurrences of `c`.
pub open spec fn pieces(s: Seq<char>, c: char) -> Seq<Seq<char>> {
    cut(s, equals(c))
}

/// The maximal runs of non-blank characters of `s`, in order.
pub open spec fn words(s: Seq<char>) -> Seq<Seq<char>> {
    cut(s, |x: char| is_blank(x)).filter(|w: Seq<char>| w.len() > 0)
}

/// The parts one after the other, with `sep` between neighbours.
pub open spec fn joined(parts: Seq<Seq<char>>, sep: Seq<char>) -> Seq<char>
    decreases parts.len(),
{
    if parts.len() == 0 {
        Seq::empty()
    } else if parts.len() == 1 {
        parts[0]
    } else {
        joined(parts.drop_last(), sep) + sep + parts.last()
    }
}

pub proof fn lemma_cut_nonempty(s: Seq<char>, sep: spec_fn(char) -> bool)
    ensures
        cut(s, sep).len() > 0,
    decreases s.len(),
{
    if s.len() > 0 {
        lemma_cut_nonempty(s.drop_last(), sep);
    }
}

/// Cutting at a separator cuts both sides independently.
pub proof fn lemma_cut_at(a: Seq<char>, c: char, b: Seq<char>, sep: spec_fn(char) -> bool)
    requires
        sep(c),
    ensures
        cut(a + seq![c] + b, sep) == cut(a, sep) + cut(b, sep),
    decreases b.len(),
{
    let s = a + seq![c] + b;
    if b.len() == 0 {
        assert(s.drop_last() == a);
        assert(cut(b, sep) == seq![b]);
        assert(b == Seq::<char>::empty());
        assert(cut(s, sep) == cut(a, sep).push(Seq::empty()));
    } else {
        let t = a + seq![c] + b.drop_last();
        assert(s.drop_last() == t);
        assert(s.last() == b.last());
        lemma_cut_at(a, c, b.drop_last(), sep);
        lemma_cut_nonempty(b.drop_last(), sep);
        let l = cut(a, sep);
        let r = cut(b.drop_last(), sep);
        assert((l + r).last() == r.last());
        assert((l + r).drop_last() == l + r.drop_last());
        assert(cut(s, sep) == cut(a, sep) + cut(b, sep));
    }
}

/// Text without a separator is one piece.
pub proof fn lemma_cut_whole(s: Seq<char>, sep: spec_fn(char) -> bool)
    requires
        forall|i: int| 0 <= i < s.len() ==> !#[trigger] sep(s[i]),
    ensures
        cut(s, sep) == seq![s],
    decreases s.len(),
{
    if s.len() > 0 {
        assert forall|i: int| 0 <= i < s.drop_last().len() implies !#[trigger] sep(
            s.drop_last()[i],
        ) by {
            assert(!sep(s[i]));
        }
        lemma_cut_whole(s.drop_last(), sep);
        assert(!sep(s[s.len() - 1]));
        assert(s.drop_last().push(s.last()) == s);
        assert(cut(s, sep) == seq![s]);
    }
}

/// No piece holds a separator.
pub proof fn lemma_cut_clean(s: Seq<char>, sep: spec_fn(char) -> bool, k: int, i: int)
    requires
        0 <= k < cut(s, sep).len(),
        0 <= i < cut(s, sep)[k].len(),
    ensures
        !sep(cut(s, sep)[k][i]),
    decreases s.len(),
{
    if s.len() > 0 {
        lemma_cut_nonempty(s.drop_last(), sep);
        let head = cut(s.drop_last(), sep);
        if k < head.len() && i < head[k].len() {
            lemma_cut_clean(s.drop_last(), sep, k, i);
        }
    }
}

/// Cutting at the separator undoes joining with it.
pub proof fn lemma_cut_joined(parts: Seq<Seq<char>>, c: char, sep: spec_fn(char) -> bool)
    requires
        parts.len() > 0,
        sep(c),
        forall|k: int, i: int|
            0 <= k < parts.len() && 0 <= i < parts[k].len() ==> !#[trigger] sep(parts[k][i]),
    ensures
        cut(joined(parts, seq![c]), sep) == parts,
    decreases parts.len(),
{
    if parts.len() == 1 {
        assert forall|i: int| 0 <= i < parts[0].len() implies !#[trigger] sep(parts[0][i]) by {}
        lemma_cut_whole(parts[0], sep);
        assert(parts == seq![parts[0]]);
    } else {
        let head = parts.drop_last();
        assert forall|k: int, i: int|
            0 <= k < head.len() && 0 <= i < head[k].len() implies !#[trigger] sep(head[k][i]) by {
            assert(!sep(parts[k][i]));
        }
        lemma_cut_joined(head, c, sep);
        lemma_cut_at(joined(head, seq![c]), c, parts.last(), sep);
        let last = parts.last();
        assert forall|i: int| 0 <= i < last.len() implies !#[trigger] sep(last[i]) by {
            assert(!sep(parts[parts.len() - 1][i]));
        }
        lemma_cut_whole(last, sep);
        assert(head + seq![last] == parts);
    }
}

/// Non-empty words without white space are recovered from their joined text.
pub proof fn lemma_words_joined(parts: Seq<Seq<char>>)
    requires
        forall|k: int| 0 <= k < parts.len() ==> (#[trigger] parts[k]).len() > 0,
        forall|k: int, i: int|
            0 <= k < parts.len() && 0 <= i < parts[k].len() ==> !is_blank(#[trigger] parts[k][i]),
    ensures
        words(joined(parts, seq![' '])) == parts,
{
    let sep = |x: char| is_blank(x);
    let full = |w: Seq<char>| w.len() > 0;
    if parts.len() == 0 {
        assert(cut(Seq::<char>::empty(), sep) == seq![Seq::<char>::empty()]);
        reveal_with_fuel(Seq::filter, 2);
        let one = seq![Seq::<char>::empty()];
        assert(one.drop_last() == Seq::<Seq<char>>::empty());
        assert(one.filter(full) == Seq::<Seq<char>>::empty());
        assert(words(joined(parts, seq![' '])) == parts);
    } else {
        assert forall|k: int, i: int|
            0 <= k < parts.len() && 0 <= i < parts[k].len() implies !#[trigger] sep(
            parts[k][i],
        ) by {
            assert(!is_blank(parts[k][i]));
        }
        lemma_cut_joined(parts, ' ', sep);
        lemma_filter_all(parts, full);
    }
}

/// A filter that every element passes keeps the sequence.
pub proof fn lemma_filter_all<A>(s: Seq<A>, p: spec_fn(A) -> bool)
    requires
        forall|i: int| 0 <= i < s.len() ==> p(#[trigger] s[i]),
    ensures
        s.filter(p) == s,
    decreases s.len(),
{
    reveal(Seq::filter);
    if s.len() > 0 {
        lemma_filter_all(s.drop_last(), p);
        assert(p(s[s.len() - 1]));
        assert(s.drop_last().push(s.last()) == s);
    }
}

pub fn split(s: &str, c: char) -> (r: Vec<String>)
    ensures
        texts(r@) == pieces(s@, c),
{
    let v = chars(s);
    let ghost sep = equals(c);
    let mut out: Vec<String> = Vec::new();
    let mut cur = String::new();
    let mut i: usize = 0;
    assert(v@.take(0) == Seq::<char>::empty());
    while i < v.len()
        invariant
            i <= v@.len(),
            sep == equals(c),
            texts(out@).push(cur@) == cut(v@.take(i as int), sep),
        decreases v@.len() - i,
    {
        let ghost head = cut(v@.take(i as int), sep);
        assert(v@.take(i + 1).drop_last() == v@.take(i as int));
        assert(head.last() == cur@ && head.drop_last() == texts(out@));
        if v[i] == c {
            out.push(cur);
            cur = String::new();
            assert(texts(out@) == head);
        } else {
            cur.push(v[i]);
        }
        i += 1;
    }
    assert(v@.take(i as int) == v@);
    let ghost whole = texts(out@).push(cur@);
    out.push(cur);
    assert(texts(out@) == whole);
    out
}

pub fn split_words(s: &str) -> (r: Vec<String>)
    ensures
        texts(r@) == words(s@),
{
    let v = chars(s);
    let ghost sep = |x: char| is_blank(x);
    let ghost full = |w: Seq<char>| w.len() > 0;
    let mut out: Vec<String> = Vec::new();
    let mut cur: Vec<char> = Vec::new();
    let mut i: usize = 0;
    assert(v@.take(0) == Seq::<char>::empty());
    assert(Seq::<Seq<char>>::empty().filter(full) == Seq::<Seq<char>>::empty()) by {
        reveal(Seq::filter);
    }
    assert(cut(v@.take(0), sep).drop_last() == Seq::<Seq<char>>::empty());
    while i < v.len()
        invariant
            i <= v@.len(),
            sep == (|x: char| is_blank(x)),
            full == (|w: Seq<char>| w.len() > 0),
            cut(v@.take(i as int), sep).len() > 0,
            cut(v@.take(i as int), sep).last() == cur@,
            texts(out@) == cut(v@.take(i as int), sep).drop_last().filter(full),
        decreases v@.len() - i,
    {
        let ghost head = cut(v@.take(i as int), sep);
        assert(v@.take(i + 1).drop_last() == v@.take(i as int));
        if blank(v[i]) {
            proof {
                assert(head.push(Seq::empty()).drop_last() == head);
                assert(head == head.drop_last().push(cur@));
                head.drop_last().lemma_filter_push(cur@, full);
            }
            if cur.len() > 0 {
                out.push(range_text(&cur, 0, cur.len()));
                assert(cur@.subrange(0, cur@.len() as int) == cur@);
            }
            cur = Vec::new();
        } else {
            cur.push(v[i]);
            assert(head.drop_last().push(cur@).drop_last() == head.drop_last());
        }
        i += 1;
    }
    assert(v@.take(i as int) == v@);
    proof {
        let head = cut(v@, sep);
        assert(head == head.drop_last().push(cur@));
        head.drop_last().lemma_filter_push(cur@, full);
    }
    if cur.len() > 0 {
        out.push(range_text(&cur, 0, cur.len()));
        assert(cur@.subrange(0, cur@.len() as int) == cur@);
    }
    out
}

pub fn join(parts: &Vec<String>, sep: &str) -> (r: String)
    ensures
        r@ == joined(texts(parts@), sep@),
{
    let mut out = String::new();
    let mut i: usize = 0;
    let ghost all = texts(parts@);
    while i < parts.len()
        invariant
            i <= parts@.len(),
            all == texts(parts@),
            out@ == joined(all.take(i as int), sep@),
        decreases parts@.len() - i,
    {
        assert(all.take(i + 1).drop_last() == all.take(i as int));
        if i > 0 {
            out.append(sep);
        }
        out.append(parts[i].as_str());
        i += 1;
    }
    assert(all.take(i as int) == all);
    out
}

// ---------------------------------------------------------------------------
// Searching and measuring
// ---------------------------------------------------------------------------

/// Whether `pat` stands in `s` at position `i`.
pub open spec fn stands_at(pat: Seq<char>, s: Seq<char>, i: int) -> bool {
    0 <= i && i + pat.len() <= s.len() && s.subrange(i, i + pat.len()) == pat
}

pub fn starts_with(s: &str, prefix: &str) -> (r: bool)
    ensures
        r == prefix@.is_prefix_of(s@),
{
    let v = chars(s);
    let p = chars(prefix);
    matches_at(&v, 0, &p)
}

/// Whether `p` stands in `v` at position `at`.
pub fn matches_at(v: &Vec<char>, at: usize, p: &Vec<char>) -> (r: bool)
    requires
        at <= v@.len(),
    ensures
        r == stands_at(p@, v@, at as int),
{
    let n: usize = v.len();
    if n - at < p.len() {
        return false;
    }
    let mut i: usize = 0;
    while i < p.len()
        invariant
            i <= p@.len(),
            n == v@.len(),
            at + p@.len() <= n,
            forall|k: int| 0 <= k < i ==> v@[at + k] == p@[k],
        decreases p@.len() - i,
    {
        if v[at + i] != p[i] {
            assert(v@.subrange(at as int, at + p@.len())[i as int] != p@[i as int]);
            return false;
        }
        i += 1;
    }
    assert(v@.subrange(at as int, at + p@.len()) == p@);
    true
}

/// Length of the UTF-8 encoding.
pub open spec fn byte_len(s: Seq<char>) -> nat {
    vstd::utf8::encode_utf8(s).len()
}

/// Bytes that one character takes in UTF-8.
pub open spec fn char_width(c: char) -> nat {
    let n = c as u32;
    if n <= 0x7f {
        1
    } else if n <= 0x7ff {
        2
    } else if n <= 0xffff {
        3
    } else {
        4
    }
}

pub proof fn lemma_byte_len_push(s: Seq<char>, c: char)
    ensures
        byte_len(s.push(c)) == byte_len(s) + char_width(c),
    decreases s.len(),
{
    broadcast use vstd::utf8::char_is_scalar;

    reveal_with_fuel(vstd::utf8::encode_utf8, 2);
    let t = s.push(c);
    if s.len() == 0 {
        assert(t.drop_first() == Seq::<char>::empty());
    } else {
        assert(t.drop_first() == s.drop_first().push(c));
        lemma_byte_len_push(s.drop_first(), c);
    }
}

pub fn width(c: char) -> (r: usize)
    ensures
        r == char_width(c),
{
    let n: u32 = c as u32;
    if n <= 0x7f {
        1
    } else if n <= 0x7ff {
        2
    } else if n <= 0xffff {
        3
    } else {
        4
    }
}

/// Length in bytes of a string.
pub fn bytes_in(s: &str) -> (r: usize)
    ensures
        r == byte_len(s@),
{
    s.as_bytes().len()
}

// ---------------------------------------------------------------------------
// Quoting
// ---------------------------------------------------------------------------

/// What `Debug` prints for a string: the text in double quotes with escapes.
pub uninterp spec fn debug_form(s: Seq<char>) -> Seq<char>;

/// `Debug` of `str`, through `format!`. Its result is a function of the text
/// alone; which characters are escaped, and how, is not stated.
#[verifier::external_body]
pub(crate) fn quoted(s: &str) -> (r: String)
    ensures
        r@ == debug_form(s@),
{
    format!("{s:?}")
}

} // verus!
