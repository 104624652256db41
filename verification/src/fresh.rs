//! When each name last had a fresh answer, in ascending order of name.

use vstd::prelude::*;
use crate::name_set::lemma_insert_to_set;
use crate::order::{
    ascending, in_order, lemma_ascending_distinct, lemma_in_order, lemma_name_order,
    lemma_precedes_total, lemma_precedes_transitive, name_lt, precedes, text_before,
};
use crate::plan::{from_answer, is_fresh, states_of, NameState, StateView};
use crate::secs::Secs;
use crate::text::same_text;

verus! {

/// What the times stand for.
pub type Times = Map<Seq<char>, Secs>;

/// Name -> the time of its last fresh answer.
#[derive(Debug, PartialEq, Eq)]
pub struct FreshTimes {
    items: Vec<(String, Secs)>,
}

/// The contents of a list of names with times.
pub open spec fn stamps(v: Seq<(String, Secs)>) -> Seq<(Seq<char>, Secs)> {
    v.map_values(|e: (String, Secs)| (e.0@, e.1))
}

/// The entries of a map of times, in ascending order of name.
pub open spec fn listed_times(m: Times) -> Seq<(Seq<char>, Secs)> {
    in_order(m.dom(), name_lt()).map_values(|n: Seq<char>| (n, m[n]))
}

spec fn keys_of(v: Seq<(String, Secs)>) -> Seq<Seq<char>> {
    v.map_values(|e: (String, Secs)| e.0@)
}

impl View for FreshTimes {
    type V = Times;

    closed spec fn view(&self) -> Times {
        Map::new(
            |n: Seq<char>| keys_of(self.items@).contains(n),
            |n: Seq<char>| self.items@[keys_of(self.items@).index_of(n)].1,
        )
    }
}

impl FreshTimes {
    #[verifier::type_invariant]
    spec fn ordered(self) -> bool {
        ascending(keys_of(self.items@), name_lt())
    }

    proof fn lemma_entry(self, i: int)
        requires
            self.ordered(),
            0 <= i < self.items@.len(),
        ensures
            self@.contains_key(self.items@[i].0@),
            self@[self.items@[i].0@] == self.items@[i].1,
    {
        lemma_name_order();
        let k = keys_of(self.items@);
        lemma_ascending_distinct(k, name_lt());
        assert(k[i] == self.items@[i].0@);
        assert(k.contains(k[i]));
        assert(k[k.index_of(k[i])] == k[i]);
    }

    proof fn lemma_domain(self)
        ensures
            self@.dom() == keys_of(self.items@).to_set(),
    {
        assert(self@.dom() =~= keys_of(self.items@).to_set());
    }

    /// No times.
    pub fn new() -> (r: FreshTimes)
        ensures
            r@ == Times::empty(),
    {
        let r = FreshTimes { items: Vec::new() };
        assert(r@ =~= Times::empty());
        r
    }

    /// The entries in ascending order of name.
    pub fn list(&self) -> (r: &Vec<(String, Secs)>)
        ensures
            stamps(r@) == listed_times(self@),
            self@.dom().finite(),
            r@.len() == self@.dom().len(),
    {
        proof {
            use_type_invariant(self);
            lemma_name_order();
            self.lemma_domain();
            let k = keys_of(self.items@);
            lemma_in_order(k, name_lt());
            lemma_ascending_distinct(k, name_lt());
            assert forall|i: int| 0 <= i < k.len() implies stamps(self.items@)[i] == (
                k[i],
                self@[k[i]],
            ) by {
                self.lemma_entry(i);
            }
            assert(stamps(self.items@) =~= listed_times(self@));
        }
        &self.items
    }

    /// The time of `name`.
    pub fn get(&self, name: &str) -> (r: Option<Secs>)
        ensures
            r is Some <==> self@.contains_key(name@),
            r matches Some(t) ==> t == self@[name@],
    {
        let ghost k = keys_of(self.items@);
        proof {
            use_type_invariant(self);
        }
        let mut i: usize = 0;
        while i < self.items.len()
            invariant
                i <= self.items@.len(),
                k == keys_of(self.items@),
                self.ordered(),
                forall|j: int| 0 <= j < i ==> k[j] != name@,
            decreases self.items@.len() - i,
        {
            assert(k[i as int] == self.items@[i as int].0@);
            if same_text(self.items[i].0.as_str(), name) {
                proof {
                    self.lemma_entry(i as int);
                }
                return Some(self.items[i].1);
            }
            i += 1;
        }
        assert(!k.contains(name@));
        None
    }

    /// The times with that of `name` set to `at`.
    pub fn with(self, name: String, at: Secs) -> (r: FreshTimes)
        ensures
            r@ == self@.insert(name@, at),
    {
        proof {
            use_type_invariant(&self);
            lemma_name_order();
        }
        let ghost before = self;
        let ghost k = keys_of(self.items@);
        let ghost n = name@;
        let mut items = self.items;
        let mut i: usize = 0;
        while i < items.len() && text_before(items[i].0.as_str(), name.as_str())
            invariant
                i <= items@.len(),
                k == keys_of(items@),
                n == name@,
                forall|j: int| 0 <= j < i ==> precedes(#[trigger] k[j], n),
            decreases items@.len() - i,
        {
            assert(k[i as int] == items@[i as int].0@);
            i += 1;
        }
        let found = i < items.len() && same_text(items[i].0.as_str(), name.as_str());
        if found {
            assert(k[i as int] == n);
            items.set(i, (name, at));
            assert(keys_of(items@) =~= k);
            assert(k.contains(n));
            assert(k.to_set().insert(n) =~= k.to_set());
        } else {
            proof {
                if i < k.len() {
                    assert(k[i as int] == items@[i as int].0@);
                    lemma_precedes_total(n, k[i as int]);
                    assert(precedes(n, k[i as int]));
                }
                assert forall|j: int| i <= j < k.len() implies precedes(n, #[trigger] k[j]) by {
                    if j > i {
                        assert(name_lt()(k[i as int], k[j]));
                        lemma_precedes_transitive(n, k[i as int], k[j]);
                    }
                }
            }
            items.insert(i, (name, at));
            proof {
                let u = keys_of(items@);
                assert(u =~= k.insert(i as int, n));
                assert forall|a: int, b: int| 0 <= a < b < u.len() implies #[trigger] name_lt()(
                    u[a],
                    u[b],
                ) by {
                    if b < i {
                        assert(name_lt()(k[a], k[b]));
                    } else if a > i {
                        assert(name_lt()(k[a - 1], k[b - 1]));
                    } else if a < i && b > i {
                        assert(name_lt()(k[a], k[b - 1]));
                    }
                }
                lemma_insert_to_set(k, i as int, n);
            }
        }
        let r = FreshTimes { items };
        proof {
            let want = before@.insert(n, at);
            r.lemma_domain();
            before.lemma_domain();
            r.lemma_entry(i as int);
            assert(r@.dom() =~= want.dom());
            assert forall|q: Seq<char>| r@.contains_key(q) implies r@[q] == want[q] by {
                if q != n {
                    assert(before@.contains_key(q));
                    assert(k.contains(q));
                    let j = choose|j: int| 0 <= j < k.len() && k[j] == q;
                    before.lemma_entry(j);
                    if found || j < i {
                        assert(r.items@[j] == before.items@[j]);
                        r.lemma_entry(j);
                    } else {
                        assert(r.items@[j + 1] == before.items@[j]);
                        r.lemma_entry(j + 1);
                    }
                }
            }
            assert(r@ =~= want);
        }
        r
    }
}

// ---------------------------------------------------------------------------
// Bookkeeping from one run to the next
// ---------------------------------------------------------------------------

/// Some state is that of `name`.
pub open spec fn has_state(names: Seq<StateView>, name: Seq<char>) -> bool {
    exists|i: int| 0 <= i < names.len() && (#[trigger] names[i]).name == name
}

/// Some state of `name` comes from an authenticated answer.
pub open spec fn has_fresh_state(names: Seq<StateView>, name: Seq<char>) -> bool {
    exists|i: int|
        0 <= i < names.len() && (#[trigger] names[i]).name == name && from_answer(names[i].source)
}

/// The times after a run: `now` for every name with a fresh answer, the
/// previous time for every other configured name that had one.
pub open spec fn carried_times(prev: Times, names: Seq<StateView>, now: Secs) -> Times {
    Map::new(
        |n: Seq<char>|
            has_fresh_state(names, n) || (has_state(names, n) && prev.contains_key(n)),
        |n: Seq<char>|
            if has_fresh_state(names, n) {
                now
            } else {
                prev[n]
            },
    )
}

/// Carries the times of the previous run forward: names that are no longer
/// configured are dropped and names with a fresh answer get `now`.
pub fn carry_forward(prev: &FreshTimes, names: &Vec<NameState>, now: Secs) -> (r: FreshTimes)
    ensures
        r@ == carried_times(prev@, states_of(names@), now),
{
    let ghost all = states_of(names@);
    let mut out = FreshTimes::new();
    let mut i: usize = 0;
    while i < names.len()
        invariant
            i <= names@.len(),
            all == states_of(names@),
            out@ == carried_times(prev@, all.take(i as int), now),
        decreases names@.len() - i,
    {
        let ghost head = all.take(i as int);
        let ghost longer = all.take(i + 1);
        let ghost n = names@[i as int].name@;
        proof {
            assert(longer == head.push(all[i as int]));
            assert(all[i as int] == names@[i as int]@);
            assert forall|q: Seq<char>| #![auto]
                (has_state(longer, q) <==> has_state(head, q) || q == n) && (has_fresh_state(
                    longer,
                    q,
                ) <==> has_fresh_state(head, q) || (q == n && from_answer(
                    all[i as int].source,
                ))) by {
                assert(longer[i as int] == all[i as int]);
                if has_state(head, q) {
                    let k = choose|k: int| 0 <= k < head.len() && (#[trigger] head[k]).name == q;
                    assert(longer[k] == head[k]);
                }
                if has_fresh_state(head, q) {
                    let k = choose|k: int|
                        0 <= k < head.len() && (#[trigger] head[k]).name == q && from_answer(
                            head[k].source,
                        );
                    assert(longer[k] == head[k]);
                }
                if has_state(longer, q) && q != n {
                    let k = choose|k: int|
                        0 <= k < longer.len() && (#[trigger] longer[k]).name == q;
                    assert(head[k] == longer[k]);
                }
                if has_fresh_state(longer, q) {
                    let k = choose|k: int|
                        0 <= k < longer.len() && (#[trigger] longer[k]).name == q && from_answer(
                            longer[k].source,
                        );
                    if k < i {
                        assert(head[k] == longer[k]);
                    }
                }
            }
        }
        let ghost was = out@;
        if is_fresh(names[i].source) {
            out = out.with(names[i].name.clone(), now);
        } else {
            let known = out.get(names[i].name.as_str());
            if known.is_none() {
                match prev.get(names[i].name.as_str()) {
                    Some(t) => {
                        out = out.with(names[i].name.clone(), t);
                    },
                    None => {},
                }
            }
        }
        proof {
            let want = carried_times(prev@, longer, now);
            assert forall|q: Seq<char>| #[trigger] out@.contains_key(q) <==> want.contains_key(
                q,
            ) by {
                assert(has_state(longer, q) <==> has_state(head, q) || q == n);
                assert(was.contains_key(q) <==> carried_times(prev@, head, now).contains_key(q));
            }
            assert(out@.dom() =~= want.dom());
            assert forall|q: Seq<char>| #[trigger] want.contains_key(q) implies out@[q]
                == want[q] by {
                assert(has_state(longer, q) <==> has_state(head, q) || q == n);
                if was.contains_key(q) {
                    assert(was[q] == carried_times(prev@, head, now)[q]);
                }
            }
            assert(out@ =~= want);
        }
        i += 1;
    }
    assert(all.take(i as int) == all);
    out
}

} // verus!
