//! What normalizing a name does, and does not, change.

use vstd::prelude::*;

use crate::config::normalized;
use crate::text::{is_blank, lower_char, lowered, stripped_end, trimmed, trimmed_end, trimmed_start};

verus! {

proof fn lemma_stripped_end(s: Seq<char>, c: char)
    ensures
        stripped_end(s, c).len() > 0 ==> stripped_end(s, c).last() != c,
    decreases s.len(),
{
    if s.len() > 0 && s.last() == c {
        lemma_stripped_end(s.drop_last(), c);
    }
}

proof fn lemma_lower_char(c: char)
    ensures
        lower_char(lower_char(c)) == lower_char(c),
        is_blank(lower_char(c)) == is_blank(c),
        lower_char(c) == '.' <==> c == '.',
        !('A' <= lower_char(c) <= 'Z'),
{
    if 'A' <= c <= 'Z' {
        assert(97 <= c as u32 + 32 <= 122);
    }
}

proof fn lemma_trimmed_start_lowered(s: Seq<char>)
    ensures
        trimmed_start(lowered(s)) == lowered(trimmed_start(s)),
    decreases s.len(),
{
    if s.len() > 0 {
        lemma_lower_char(s[0]);
        assert(lowered(s)[0] == lower_char(s[0]));
        assert(lowered(s).skip(1) =~= lowered(s.skip(1)));
        lemma_trimmed_start_lowered(s.skip(1));
    }
}

proof fn lemma_trimmed_end_lowered(s: Seq<char>)
    ensures
        trimmed_end(lowered(s)) == lowered(trimmed_end(s)),
    decreases s.len(),
{
    if s.len() > 0 {
        lemma_lower_char(s.last());
        assert(lowered(s).last() == lower_char(s.last()));
        assert(lowered(s).drop_last() =~= lowered(s.drop_last()));
        lemma_trimmed_end_lowered(s.drop_last());
    }
}

proof fn lemma_stripped_lowered(s: Seq<char>)
    ensures
        stripped_end(lowered(s), '.') == lowered(stripped_end(s, '.')),
    decreases s.len(),
{
    if s.len() > 0 {
        lemma_lower_char(s.last());
        assert(lowered(s).last() == lower_char(s.last()));
        assert(lowered(s).drop_last() =~= lowered(s.drop_last()));
        lemma_stripped_lowered(s.drop_last());
    }
}

proof fn lemma_lowered_twice(s: Seq<char>)
    ensures
        lowered(lowered(s)) == lowered(s),
{
    assert forall|i: int| 0 <= i < s.len() implies lowered(lowered(s))[i] == lowered(s)[i] by {
        lemma_lower_char(s[i]);
    }
    assert(lowered(lowered(s)) =~= lowered(s));
}

/// A normalized name has no upper-case ASCII letter and no trailing dot.
pub proof fn law_normalized_form(name: Seq<char>)
    ensures
        forall|i: int|
            0 <= i < normalized(name).len() ==> !('A' <= #[trigger] normalized(name)[i] <= 'Z'),
        normalized(name).len() > 0 ==> normalized(name).last() != '.',
{
    let t = stripped_end(trimmed(name), '.');
    let n = normalized(name);
    lemma_stripped_end(trimmed(name), '.');
    assert forall|i: int| 0 <= i < n.len() implies !('A' <= #[trigger] n[i] <= 'Z') by {
        lemma_lower_char(t[i]);
    }
    if n.len() > 0 {
        lemma_lower_char(t.last());
        assert(n.last() == lower_char(t.last()));
    }
}

/// Names that differ only in the case of letters have the same normalized
/// form.
pub proof fn law_normalizing_ignores_case(a: Seq<char>, b: Seq<char>)
    requires
        lowered(a) == lowered(b),
    ensures
        normalized(a) == normalized(b),
{
    lemma_normalized_lowered(a);
    lemma_normalized_lowered(b);
}

proof fn lemma_normalized_lowered(s: Seq<char>)
    ensures
        normalized(lowered(s)) == normalized(s),
{
    lemma_trimmed_start_lowered(s);
    lemma_trimmed_end_lowered(trimmed_start(s));
    lemma_stripped_lowered(trimmed(s));
    lemma_lowered_twice(stripped_end(trimmed(s), '.'));
}

proof fn lemma_trimmed_start_first(s: Seq<char>)
    ensures
        trimmed_start(s).len() > 0 ==> !is_blank(trimmed_start(s).first()),
        trimmed_start(s).len() > 0 ==> trimmed_start(s).last() == s.last(),
    decreases s.len(),
{
    if s.len() > 0 && is_blank(s.first()) {
        lemma_trimmed_start_first(s.skip(1));
    }
}

proof fn lemma_trimmed_end_prefix(s: Seq<char>)
    ensures
        trimmed_end(s).is_prefix_of(s),
    decreases s.len(),
{
    if s.len() > 0 && is_blank(s.last()) {
        lemma_trimmed_end_prefix(s.drop_last());
        assert(s.drop_last().is_prefix_of(s));
    }
}

proof fn lemma_stripped_end_prefix(s: Seq<char>, c: char)
    ensures
        stripped_end(s, c).is_prefix_of(s),
    decreases s.len(),
{
    if s.len() > 0 && s.last() == c {
        lemma_stripped_end_prefix(s.drop_last(), c);
        assert(s.drop_last().is_prefix_of(s));
    }
}

/// Normalizing a name again changes nothing, unless white space came before
/// its trailing dots.
pub proof fn law_normalized_name_is_stable(name: Seq<char>)
    requires
        normalized(name).len() > 0 ==> !is_blank(normalized(name).last()),
    ensures
        normalized(normalized(name)) == normalized(name),
{
    let n = normalized(name);
    let t = stripped_end(trimmed(name), '.');
    if n.len() > 0 {
        lemma_trimmed_start_first(name);
        lemma_trimmed_end_prefix(trimmed_start(name));
        lemma_stripped_end_prefix(trimmed(name), '.');
        assert(t.first() == trimmed_start(name).first());
        lemma_lower_char(t.first());
        assert(n.first() == lower_char(t.first()));
    }
    assert(trimmed(n) == n);
    law_normalized_form(name);
    assert(stripped_end(n, '.') == n);
    lemma_lowered_twice(t);
}

/// A trailing dot makes no difference to a name, unless white space comes
/// before it.
pub proof fn law_trailing_dot_is_ignored(name: Seq<char>)
    requires
        trimmed(name).len() > 0 ==> !is_blank(name.last()),
    ensures
        normalized(name.push('.')) == normalized(name),
{
    let d = name.push('.');
    lemma_trimmed_start_push(name, '.');
    lemma_trimmed_start_first(name);
    assert(trimmed_end(trimmed_start(d)) == trimmed_start(d));
    assert(trimmed_start(d).drop_last() =~= trimmed_start(name));
    lemma_trimmed_end_keeps(trimmed_start(name));
    assert(trimmed(name) == trimmed_start(name));
}

proof fn lemma_trimmed_start_push(s: Seq<char>, c: char)
    requires
        !is_blank(c),
    ensures
        trimmed_start(s.push(c)) == trimmed_start(s).push(c),
    decreases s.len(),
{
    if s.len() > 0 {
        assert(s.push(c).first() == s.first());
        assert(s.push(c).skip(1) =~= s.skip(1).push(c));
        lemma_trimmed_start_push(s.skip(1), c);
    } else {
        assert(s.push(c).first() == c);
    }
}

/// Trimming the end keeps a first character that is not white space.
proof fn lemma_trimmed_end_keeps(s: Seq<char>)
    ensures
        s.len() > 0 && !is_blank(s.first()) ==> trimmed_end(s).len() > 0,
    decreases s.len(),
{
    if s.len() > 1 && is_blank(s.last()) {
        assert(s.drop_last().first() == s.first());
        lemma_trimmed_end_keeps(s.drop_last());
    }
}

} // verus!
