//! Ascending order: of names, of addresses, and of any strict order.

use vstd::prelude::*;
use crate::addr::Ipv4Addr;
use crate::text::chars;

verus! {

/// Each element comes before every later one.
pub open spec fn ascending<A>(s: Seq<A>, lt: spec_fn(A, A) -> bool) -> bool {
    forall|i: int, j: int| 0 <= i < j < s.len() ==> #[trigger] lt(s[i], s[j])
}

/// The elements of a finite set, in ascending order.
pub open spec fn in_order<A>(set: Set<A>, lt: spec_fn(A, A) -> bool) -> Seq<A> {
    choose|s: Seq<A>| #[trigger] ascending(s, lt) && s.to_set() == set
}

/// No two elements come before each other.
pub open spec fn asymmetric<A>(lt: spec_fn(A, A) -> bool) -> bool {
    forall|a: A, b: A| #[trigger] lt(a, b) ==> !lt(b, a)
}

pub proof fn lemma_ascending_unique<A>(s: Seq<A>, t: Seq<A>, lt: spec_fn(A, A) -> bool)
    requires
        ascending(s, lt),
        ascending(t, lt),
        s.to_set() == t.to_set(),
        asymmetric(lt),
    ensures
        s == t,
    decreases s.len(),
{
    if s.len() == 0 {
        if t.len() > 0 {
            assert(t.to_set().contains(t[0]));
            assert(s.contains(t[0]));
        }
        assert(s == t);
    } else {
        let a = s.last();
        assert(s.to_set().contains(a));
        assert(t.contains(a));
        let k = choose|k: int| 0 <= k < t.len() && t[k] == a;
        let b = t.last();
        assert(t.to_set().contains(b));
        assert(s.contains(b));
        let m = choose|m: int| 0 <= m < s.len() && s[m] == b;
        if k < t.len() - 1 {
            assert(lt(t[k], t[t.len() - 1]));
            if m < s.len() - 1 {
                assert(lt(s[m], s[s.len() - 1]));
            }
            assert(false);
        }
        let s1 = s.drop_last();
        let t1 = t.drop_last();
        assert forall|i: int, j: int| 0 <= i < j < s1.len() implies #[trigger] lt(s1[i], s1[j]) by {
            assert(lt(s[i], s[j]));
        }
        assert forall|i: int, j: int| 0 <= i < j < t1.len() implies #[trigger] lt(t1[i], t1[j]) by {
            assert(lt(t[i], t[j]));
        }
        lemma_ascending_without_last(s, lt);
        lemma_ascending_without_last(t, lt);
        assert(s1.to_set() == t1.to_set());
        lemma_ascending_unique(s1, t1, lt);
        assert(s == s1.push(a));
        assert(t == t1.push(a));
    }
}

proof fn lemma_ascending_without_last<A>(s: Seq<A>, lt: spec_fn(A, A) -> bool)
    requires
        s.len() > 0,
        ascending(s, lt),
        asymmetric(lt),
    ensures
        s.drop_last().to_set() == s.to_set().remove(s.last()),
{
    let a = s.last();
    let d = s.drop_last();
    assert forall|x: A| d.to_set().contains(x) <==> s.to_set().remove(a).contains(x) by {
        if d.contains(x) {
            let i = choose|i: int| 0 <= i < d.len() && d[i] == x;
            assert(s[i] == x);
            assert(s.contains(x));
            assert(lt(s[i], s[s.len() - 1]));
        }
        if s.contains(x) && x != a {
            let i = choose|i: int| 0 <= i < s.len() && s[i] == x;
            assert(d[i] == x);
        }
    }
    assert(d.to_set() =~= s.to_set().remove(a));
}

/// An ascending sequence is the ordered form of its set of elements.
pub proof fn lemma_in_order<A>(s: Seq<A>, lt: spec_fn(A, A) -> bool)
    requires
        ascending(s, lt),
        asymmetric(lt),
    ensures
        in_order(s.to_set(), lt) == s,
{
    let t = in_order(s.to_set(), lt);
    assert(ascending(s, lt) && s.to_set() == s.to_set());
    lemma_ascending_unique(t, s, lt);
}

/// Elements of an ascending sequence are pairwise different.
pub proof fn lemma_ascending_distinct<A>(s: Seq<A>, lt: spec_fn(A, A) -> bool)
    requires
        ascending(s, lt),
        asymmetric(lt),
    ensures
        s.no_duplicates(),
        s.to_set().finite(),
        s.to_set().len() == s.len(),
{
    assert forall|i: int, j: int| 0 <= i < s.len() && 0 <= j < s.len() && i != j implies s[i]
        != s[j] by {
        if i < j {
            assert(lt(s[i], s[j]));
        } else {
            assert(lt(s[j], s[i]));
        }
    }
    s.unique_seq_to_set();
    vstd::seq_lib::seq_to_set_is_finite(s);
}

/// Filtering keeps the order.
pub proof fn lemma_ascending_filter<A>(
    s: Seq<A>,
    lt: spec_fn(A, A) -> bool,
    p: spec_fn(A) -> bool,
)
    requires
        ascending(s, lt),
    ensures
        ascending(s.filter(p), lt),
        s.filter(p).to_set() == s.to_set().filter(p),
    decreases s.len(),
{
    reveal(Seq::filter);
    if s.len() > 0 {
        let d = s.drop_last();
        assert forall|i: int, j: int| 0 <= i < j < d.len() implies #[trigger] lt(d[i], d[j]) by {
            assert(lt(s[i], s[j]));
        }
        lemma_ascending_filter(d, lt, p);
        let f = d.filter(p);
        assert forall|x: A| s.filter(p).to_set().contains(x) <==> s.to_set().filter(p).contains(
            x,
        ) by {
            assert(f.to_set().contains(x) <==> d.to_set().filter(p).contains(x));
            if s.filter(p).contains(x) {
                let i = choose|i: int| 0 <= i < s.filter(p).len() && s.filter(p)[i] == x;
                if i < f.len() {
                    assert(f[i] == x);
                    assert(f.to_set().contains(x));
                    assert(d.to_set().filter(p).contains(x));
                    assert(d.contains(x));
                    let m = choose|m: int| 0 <= m < d.len() && d[m] == x;
                    assert(s[m] == x);
                } else {
                    assert(x == s.last());
                    assert(s[s.len() - 1] == x);
                }
                assert(s.contains(x) && p(x));
            }
            if s.contains(x) && p(x) {
                let m = choose|m: int| 0 <= m < s.len() && s[m] == x;
                if m < d.len() {
                    assert(d[m] == x);
                    assert(d.to_set().filter(p).contains(x));
                    assert(f.contains(x));
                    let i = choose|i: int| 0 <= i < f.len() && f[i] == x;
                    assert(s.filter(p)[i] == x);
                } else {
                    assert(s.filter(p)[f.len() as int] == x);
                }
                assert(s.filter(p).contains(x));
            }
        }
        assert(s.filter(p).to_set() =~= s.to_set().filter(p));
        if p(s.last()) {
            assert forall|i: int, j: int| 0 <= i < j < s.filter(p).len() implies #[trigger] lt(
                s.filter(p)[i],
                s.filter(p)[j],
            ) by {
                if j == f.len() {
                    assert(f.to_set().contains(f[i]));
                    assert(d.to_set().filter(p).contains(f[i]));
                    assert(d.contains(f[i]));
                    let m = choose|m: int| 0 <= m < d.len() && d[m] == f[i];
                    assert(lt(s[m], s[s.len() - 1]));
                } else {
                    assert(lt(f[i], f[j]));
                }
            }
        }
    } else {
        assert(s.filter(p).to_set() =~= s.to_set().filter(p));
    }
}

/// Of two different elements one comes first, and coming first carries over.
pub open spec fn total_order<A>(lt: spec_fn(A, A) -> bool) -> bool {
    &&& asymmetric(lt)
    &&& forall|a: A, b: A| #![trigger lt(a, b)] #![trigger lt(b, a)] a == b || lt(a, b) || lt(b, a)
    &&& forall|a: A, b: A, c: A| #[trigger] lt(a, b) && #[trigger] lt(b, c) ==> lt(a, c)
}

/// A finite set has a last element.
proof fn lemma_last_element<A>(set: Set<A>, lt: spec_fn(A, A) -> bool) -> (m: A)
    requires
        set.finite(),
        set.len() > 0,
        total_order(lt),
    ensures
        set.contains(m),
        forall|x: A| set.contains(x) && x != m ==> #[trigger] lt(x, m),
    decreases set.len(),
{
    let a = set.choose();
    let rest = set.remove(a);
    if rest.len() == 0 {
        assert forall|x: A| set.contains(x) && x != a implies #[trigger] lt(x, a) by {
            assert(rest.contains(x));
            assert(rest =~= Set::<A>::empty());
        }
        a
    } else {
        let m = lemma_last_element(rest, lt);
        if lt(m, a) {
            assert forall|x: A| set.contains(x) && x != a implies #[trigger] lt(x, a) by {
                assert(rest.contains(x));
                if x != m {
                    assert(lt(x, m));
                }
            }
            a
        } else {
            assert(lt(a, m));
            assert forall|x: A| set.contains(x) && x != m implies #[trigger] lt(x, m) by {
                if x != a {
                    assert(rest.contains(x));
                }
            }
            m
        }
    }
}

/// The elements of a finite set can be put in order.
proof fn lemma_order_exists<A>(set: Set<A>, lt: spec_fn(A, A) -> bool) -> (s: Seq<A>)
    requires
        set.finite(),
        total_order(lt),
    ensures
        ascending(s, lt),
        s.to_set() == set,
    decreases set.len(),
{
    if set.len() == 0 {
        let s = Seq::<A>::empty();
        assert(s.to_set() =~= set);
        s
    } else {
        let m = lemma_last_element(set, lt);
        let rest = set.remove(m);
        let d = lemma_order_exists(rest, lt);
        let s = d.push(m);
        assert forall|i: int, j: int| 0 <= i < j < s.len() implies #[trigger] lt(s[i], s[j]) by {
            if j < d.len() {
                assert(lt(d[i], d[j]));
            } else {
                assert(d.contains(d[i]));
                assert(d.to_set().contains(d[i]));
                assert(rest.contains(d[i]));
            }
        }
        d.lemma_push_to_set_commute(m);
        assert(s.to_set() =~= set);
        s
    }
}

/// `in_order` lists the elements of a finite set, each once, in order.
pub proof fn lemma_in_order_finite<A>(set: Set<A>, lt: spec_fn(A, A) -> bool)
    requires
        set.finite(),
        total_order(lt),
    ensures
        ascending(in_order(set, lt), lt),
        in_order(set, lt).to_set() == set,
        in_order(set, lt).len() == set.len(),
{
    let s = lemma_order_exists(set, lt);
    assert(ascending(s, lt) && s.to_set() == set);
    lemma_ascending_distinct(in_order(set, lt), lt);
}

// ---------------------------------------------------------------------------
// Names
// ---------------------------------------------------------------------------

/// Lexicographic order of texts by character.
pub open spec fn precedes(a: Seq<char>, b: Seq<char>) -> bool
    decreases a.len(),
{
    if b.len() == 0 {
        false
    } else if a.len() == 0 {
        true
    } else if a[0] != b[0] {
        a[0] < b[0]
    } else {
        precedes(a.skip(1), b.skip(1))
    }
}

/// The order of names.
pub open spec fn name_lt() -> spec_fn(Seq<char>, Seq<char>) -> bool {
    |a: Seq<char>, b: Seq<char>| precedes(a, b)
}

pub proof fn lemma_precedes_asymmetric(a: Seq<char>, b: Seq<char>)
    requires
        precedes(a, b),
    ensures
        !precedes(b, a),
    decreases a.len(),
{
    if a.len() > 0 && a[0] == b[0] {
        lemma_precedes_asymmetric(a.skip(1), b.skip(1));
    }
}

pub proof fn lemma_precedes_transitive(a: Seq<char>, b: Seq<char>, c: Seq<char>)
    requires
        precedes(a, b),
        precedes(b, c),
    ensures
        precedes(a, c),
    decreases a.len(),
{
    if a.len() > 0 && a[0] == b[0] && b[0] == c[0] {
        lemma_precedes_transitive(a.skip(1), b.skip(1), c.skip(1));
    }
}

pub proof fn lemma_precedes_total(a: Seq<char>, b: Seq<char>)
    ensures
        a == b || precedes(a, b) || precedes(b, a),
    decreases a.len(),
{
    if a.len() > 0 && b.len() > 0 && a[0] == b[0] {
        lemma_precedes_total(a.skip(1), b.skip(1));
        if a.skip(1) == b.skip(1) {
            assert(a == seq![a[0]] + a.skip(1));
            assert(b == seq![b[0]] + b.skip(1));
        }
    } else if a.len() == 0 && b.len() == 0 {
        assert(a == b);
    }
}

pub proof fn lemma_name_order()
    ensures
        asymmetric(name_lt()),
{
    assert forall|a: Seq<char>, b: Seq<char>| #[trigger] name_lt()(a, b) implies !name_lt()(
        b,
        a,
    ) by {
        lemma_precedes_asymmetric(a, b);
    }
}

pub proof fn lemma_name_total()
    ensures
        total_order(name_lt()),
{
    lemma_name_order();
    let lt = name_lt();
    assert forall|a: Seq<char>, b: Seq<char>|
        #![trigger lt(a, b)]
        #![trigger lt(b, a)]
        a == b || lt(a, b) || lt(b, a) by {
        lemma_precedes_total(a, b);
    }
    assert forall|a: Seq<char>, b: Seq<char>, c: Seq<char>| #[trigger]
        lt(a, b) && #[trigger] lt(b, c) implies lt(a, c) by {
        lemma_precedes_transitive(a, b, c);
    }
}

/// Whether `a` comes before `b`.
pub fn text_before(a: &str, b: &str) -> (r: bool)
    ensures
        r == precedes(a@, b@),
{
    let x = chars(a);
    let y = chars(b);
    let mut i: usize = 0;
    assert(x@.skip(0) == x@ && y@.skip(0) == y@);
    loop
        invariant
            i <= x@.len(),
            i <= y@.len(),
            precedes(x@.skip(i as int), y@.skip(i as int)) == precedes(a@, b@),
        decreases x@.len() - i,
    {
        if i == y.len() {
            return false;
        }
        if i == x.len() {
            return true;
        }
        if x[i] != y[i] {
            return x[i] < y[i];
        }
        assert(x@.skip(i as int).skip(1) == x@.skip(i + 1));
        assert(y@.skip(i as int).skip(1) == y@.skip(i + 1));
        i += 1;
    }
}

// ---------------------------------------------------------------------------
// Addresses
// ---------------------------------------------------------------------------

/// The numeric order of addresses.
pub open spec fn addr_lt() -> spec_fn(Ipv4Addr, Ipv4Addr) -> bool {
    |a: Ipv4Addr, b: Ipv4Addr| a.bits < b.bits
}

pub proof fn lemma_addr_order()
    ensures
        asymmetric(addr_lt()),
        total_order(addr_lt()),
{
}

} // verus!
