//! A set of names, kept in ascending order.

use vstd::prelude::*;
use crate::order::{
    ascending, in_order, lemma_ascending_distinct, lemma_in_order, lemma_name_order,
    lemma_precedes_total, lemma_precedes_transitive, name_lt, precedes, text_before,
};
use crate::text::{same_text, texts};

verus! {

/// A set of hostnames. Its elements are listed in ascending order, without
/// repetition.
#[derive(Debug, PartialEq, Eq)]
pub struct NameSet {
    items: Vec<String>,
}

impl View for NameSet {
    type V = Set<Seq<char>>;

    closed spec fn view(&self) -> Set<Seq<char>> {
        texts(self.items@).to_set()
    }
}

impl NameSet {
    #[verifier::type_invariant]
    spec fn ordered(self) -> bool {
        ascending(texts(self.items@), name_lt())
    }

    /// The set without elements.
    pub fn new() -> (r: NameSet)
        ensures
            r@ == Set::<Seq<char>>::empty(),
    {
        let items: Vec<String> = Vec::new();
        assert(texts(items@) == Seq::<Seq<char>>::empty());
        assert(texts(items@).to_set() =~= Set::<Seq<char>>::empty());
        NameSet { items }
    }

    /// The elements in ascending order.
    pub fn list(&self) -> (r: &Vec<String>)
        ensures
            texts(r@) == in_order(self@, name_lt()),
            ascending(texts(r@), name_lt()),
            texts(r@).to_set() == self@,
            self@.finite(),
            self@.len() == r@.len(),
    {
        proof {
            use_type_invariant(self);
            lemma_name_order();
            lemma_in_order(texts(self.items@), name_lt());
            lemma_ascending_distinct(texts(self.items@), name_lt());
        }
        &self.items
    }

    /// Whether the set has no elements.
    pub fn is_empty(&self) -> (r: bool)
        ensures
            r == (self@ == Set::<Seq<char>>::empty()),
    {
        proof {
            let t = texts(self.items@);
            if t.len() > 0 {
                assert(t.contains(t[0]));
                assert(self@.contains(t[0]));
            } else {
                assert(t.to_set() =~= Set::<Seq<char>>::empty());
            }
        }
        self.items.len() == 0
    }

    pub fn contains(&self, name: &str) -> (r: bool)
        ensures
            r == self@.contains(name@),
    {
        let mut i: usize = 0;
        let ghost t = texts(self.items@);
        while i < self.items.len()
            invariant
                i <= self.items@.len(),
                t == texts(self.items@),
                forall|k: int| 0 <= k < i ==> t[k] != name@,
            decreases self.items@.len() - i,
        {
            if same_text(self.items[i].as_str(), name) {
                assert(t[i as int] == name@);
                assert(t.contains(name@));
                return true;
            }
            i += 1;
        }
        assert(!t.contains(name@));
        false
    }

    /// The set with `name` added.
    pub fn with(self, name: String) -> (r: NameSet)
        ensures
            r@ == self@.insert(name@),
    {
        proof {
            use_type_invariant(&self);
            lemma_name_order();
        }
        let mut items = self.items;
        let ghost t = texts(items@);
        let ghost n = name@;
        let mut i: usize = 0;
        while i < items.len() && text_before(items[i].as_str(), name.as_str())
            invariant
                i <= items@.len(),
                t == texts(items@),
                n == name@,
                forall|k: int| 0 <= k < i ==> precedes(#[trigger] t[k], n),
            decreases items@.len() - i,
        {
            assert(t[i as int] == items@[i as int]@);
            i += 1;
        }
        if i < items.len() && same_text(items[i].as_str(), name.as_str()) {
            assert(t[i as int] == n);
            assert(t.to_set().insert(n) =~= t.to_set());
            return NameSet { items };
        }
        proof {
            if i < t.len() {
                assert(t[i as int] == items@[i as int]@);
                lemma_precedes_total(n, t[i as int]);
                assert(precedes(n, t[i as int]));
            }
            assert forall|k: int| i <= k < t.len() implies precedes(n, #[trigger] t[k]) by {
                if k > i {
                    assert(name_lt()(t[i as int], t[k]));
                    lemma_precedes_transitive(n, t[i as int], t[k]);
                }
            }
        }
        items.insert(i, name);
        proof {
            let u = texts(items@);
            assert(u == t.insert(i as int, n));
            assert forall|a: int, b: int| 0 <= a < b < u.len() implies #[trigger] name_lt()(
                u[a],
                u[b],
            ) by {
                if b < i {
                    assert(name_lt()(t[a], t[b]));
                } else if a > i {
                    assert(name_lt()(t[a - 1], t[b - 1]));
                } else if a < i && b > i {
                    assert(name_lt()(t[a], t[b - 1]));
                }
            }
            lemma_insert_to_set(t, i as int, n);
        }
        NameSet { items }
    }

    /// The elements of both sets.
    pub fn union(self, other: &NameSet) -> (r: NameSet)
        ensures
            r@ == self@.union(other@),
    {
        let ghost t = texts(other.items@);
        let ghost start = self@;
        let mut out = self;
        let mut i: usize = 0;
        assert(start.union(t.take(0).to_set()) =~= start);
        while i < other.items.len()
            invariant
                i <= other.items@.len(),
                t == texts(other.items@),
                out@ == start.union(t.take(i as int).to_set()),
            decreases other.items@.len() - i,
        {
            let ghost n = t[i as int];
            assert(n == other.items@[i as int]@);
            out = out.with(other.items[i].clone());
            proof {
                assert(t.take(i + 1) == t.take(i as int).push(n));
                t.take(i as int).lemma_push_to_set_commute(n);
                assert(start.union(t.take(i as int).to_set()).insert(n) =~= start.union(
                    t.take(i as int).to_set().insert(n),
                ));
            }
            i += 1;
        }
        assert(t.take(i as int) == t);
        out
    }

    /// Whether both sets have the same elements.
    pub fn same(&self, other: &NameSet) -> (r: bool)
        ensures
            r == (self@ == other@),
    {
        let a = self.list();
        let b = other.list();
        if a.len() != b.len() {
            return false;
        }
        let ghost s = texts(a@);
        let ghost t = texts(b@);
        let mut i: usize = 0;
        while i < a.len()
            invariant
                i <= a@.len() == b@.len(),
                s == texts(a@),
                t == texts(b@),
                s == in_order(self@, name_lt()),
                t == in_order(other@, name_lt()),
                forall|k: int| 0 <= k < i ==> s[k] == t[k],
            decreases a@.len() - i,
        {
            if !same_text(a[i].as_str(), b[i].as_str()) {
                assert(s[i as int] != t[i as int]);
                return false;
            }
            i += 1;
        }
        assert(s == t);
        true
    }
}

impl Clone for NameSet {
    fn clone(&self) -> (r: NameSet)
        ensures
            r@ == self@,
    {
        proof {
            assert(Set::<Seq<char>>::empty().union(self@) =~= self@);
        }
        NameSet::new().union(self)
    }
}

/// Inserting one element into a sequence adds it to the set of elements.
pub proof fn lemma_insert_to_set<A>(s: Seq<A>, i: int, x: A)
    requires
        0 <= i <= s.len(),
    ensures
        s.insert(i, x).to_set() == s.to_set().insert(x),
{
    let u = s.insert(i, x);
    assert forall|y: A| u.to_set().contains(y) <==> s.to_set().insert(x).contains(y) by {
        if u.contains(y) {
            let k = choose|k: int| 0 <= k < u.len() && u[k] == y;
            if k < i {
                assert(s[k] == y);
            } else if k > i {
                assert(s[k - 1] == y);
            }
        }
        if s.contains(y) {
            let k = choose|k: int| 0 <= k < s.len() && s[k] == y;
            if k < i {
                assert(u[k] == y);
            } else {
                assert(u[k + 1] == y);
            }
        }
        if y == x {
            assert(u[i] == y);
        }
    }
    assert(u.to_set() =~= s.to_set().insert(x));
}

/// The set of the names in `v`.
pub fn name_set(v: Vec<String>) -> (r: NameSet)
    ensures
        r@ == texts(v@).to_set(),
{
    let mut out = NameSet::new();
    let ghost t = texts(v@);
    let mut i: usize = 0;
    assert(t.take(0).to_set() =~= Set::<Seq<char>>::empty());
    while i < v.len()
        invariant
            i <= v@.len(),
            t == texts(v@),
            out@ == t.take(i as int).to_set(),
        decreases v@.len() - i,
    {
        let ghost n = t[i as int];
        assert(n == v@[i as int]@);
        out = out.with(v[i].clone());
        proof {
            assert(t.take(i + 1) == t.take(i as int).push(n));
            t.take(i as int).lemma_push_to_set_commute(n);
        }
        i += 1;
    }
    assert(t.take(i as int) == t);
    out
}

} // verus!
