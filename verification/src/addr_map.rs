//! Addresses with the hostnames they were resolved from, in ascending order
//! of address.

use vstd::prelude::*;
use crate::addr::Ipv4Addr;
use crate::name_set::{lemma_insert_to_set, NameSet};
use crate::order::{
    addr_lt, ascending, in_order, lemma_addr_order, lemma_ascending_distinct, lemma_in_order,
};

verus! {

/// What an address map stands for.
pub type AddrNames = Map<Ipv4Addr, Set<Seq<char>>>;

/// Address -> hostnames it was resolved from.
#[derive(Debug, PartialEq, Eq)]
pub struct AddrMap {
    items: Vec<(Ipv4Addr, NameSet)>,
}

spec fn keys_of(v: Seq<(Ipv4Addr, NameSet)>) -> Seq<Ipv4Addr> {
    v.map_values(|e: (Ipv4Addr, NameSet)| e.0)
}

/// The map with `names` added to what `ip` already has.
pub open spec fn add_names(m: AddrNames, ip: Ipv4Addr, names: Set<Seq<char>>) -> AddrNames {
    m.insert(
        ip,
        if m.contains_key(ip) {
            m[ip].union(names)
        } else {
            names
        },
    )
}

impl View for AddrMap {
    type V = AddrNames;

    closed spec fn view(&self) -> AddrNames {
        Map::new(
            |ip: Ipv4Addr| keys_of(self.items@).contains(ip),
            |ip: Ipv4Addr| self.items@[keys_of(self.items@).index_of(ip)].1@,
        )
    }
}

impl AddrMap {
    #[verifier::type_invariant]
    spec fn ordered(self) -> bool {
        ascending(keys_of(self.items@), addr_lt())
    }

    proof fn lemma_entry(self, i: int)
        requires
            self.ordered(),
            0 <= i < self.items@.len(),
        ensures
            self@.contains_key(self.items@[i].0),
            self@[self.items@[i].0] == self.items@[i].1@,
    {
        lemma_addr_order();
        let k = keys_of(self.items@);
        lemma_ascending_distinct(k, addr_lt());
        assert(k[i] == self.items@[i].0);
        assert(k.contains(k[i]));
        assert(k[k.index_of(k[i])] == k[i]);
    }

    proof fn lemma_domain(self)
        ensures
            self@.dom() == keys_of(self.items@).to_set(),
    {
        assert(self@.dom() =~= keys_of(self.items@).to_set());
    }

    /// The map without entries.
    pub fn new() -> (r: AddrMap)
        ensures
            r@ == AddrNames::empty(),
    {
        let r = AddrMap { items: Vec::new() };
        assert(r@ =~= AddrNames::empty());
        r
    }

    /// The number of addresses.
    pub fn len(&self) -> (r: usize)
        ensures
            self@.dom().finite(),
            r == self@.dom().len(),
    {
        proof {
            use_type_invariant(self);
            lemma_addr_order();
            self.lemma_domain();
            lemma_ascending_distinct(keys_of(self.items@), addr_lt());
        }
        self.items.len()
    }

    /// The addresses in ascending order.
    pub fn keys(&self) -> (r: Vec<Ipv4Addr>)
        ensures
            r@ == in_order(self@.dom(), addr_lt()),
            ascending(r@, addr_lt()),
            r@.to_set() == self@.dom(),
            self@.dom().finite(),
    {
        let mut out: Vec<Ipv4Addr> = Vec::new();
        let mut i: usize = 0;
        while i < self.items.len()
            invariant
                i <= self.items@.len(),
                out@ == keys_of(self.items@).take(i as int),
            decreases self.items@.len() - i,
        {
            out.push(self.items[i].0);
            i += 1;
        }
        assert(out@ == keys_of(self.items@));
        proof {
            use_type_invariant(self);
            lemma_addr_order();
            self.lemma_domain();
            lemma_in_order(out@, addr_lt());
            lemma_ascending_distinct(out@, addr_lt());
        }
        out
    }

    /// Where `ip` stands, or else where it would be inserted.
    fn position(&self, ip: Ipv4Addr) -> (r: (usize, bool))
        ensures
            r.0 <= self.items@.len(),
            r.1 ==> r.0 < self.items@.len() && self.items@[r.0 as int].0 == ip,
            !r.1 ==> !self@.contains_key(ip),
            forall|k: int| 0 <= k < r.0 ==> (#[trigger] self.items@[k]).0.bits < ip.bits,
            !r.1 ==> forall|k: int|
                r.0 <= k < self.items@.len() ==> ip.bits < (#[trigger] self.items@[k]).0.bits,
    {
        proof {
            use_type_invariant(self);
        }
        let mut i: usize = 0;
        while i < self.items.len() && self.items[i].0.bits < ip.bits
            invariant
                i <= self.items@.len(),
                forall|k: int| 0 <= k < i ==> (#[trigger] self.items@[k]).0.bits < ip.bits,
            decreases self.items@.len() - i,
        {
            i += 1;
        }
        if i < self.items.len() && self.items[i].0.bits == ip.bits {
            assert(self.items@[i as int].0 == ip);
            return (i, true);
        }
        proof {
            let k = keys_of(self.items@);
            assert forall|j: int| i <= j < self.items@.len() implies ip.bits < (
            #[trigger] self.items@[j]).0.bits by {
                if j > i {
                    assert(addr_lt()(k[i as int], k[j]));
                }
            }
            if k.contains(ip) {
                let j = choose|j: int| 0 <= j < k.len() && k[j] == ip;
                assert(self.items@[j].0 == ip);
            }
        }
        (i, false)
    }

    pub fn contains_key(&self, ip: Ipv4Addr) -> (r: bool)
        ensures
            r == self@.contains_key(ip),
    {
        let p = self.position(ip);
        proof {
            use_type_invariant(self);
            if p.1 {
                self.lemma_entry(p.0 as int);
            }
        }
        p.1
    }

    /// The names of `ip`.
    pub fn get(&self, ip: Ipv4Addr) -> (r: Option<&NameSet>)
        ensures
            r is Some <==> self@.contains_key(ip),
            r matches Some(n) ==> n@ == self@[ip],
    {
        let p = self.position(ip);
        proof {
            use_type_invariant(self);
            if p.1 {
                self.lemma_entry(p.0 as int);
            }
        }
        if p.1 {
            Some(&self.items[p.0].1)
        } else {
            None
        }
    }

    /// The map with `names` added to what `ip` already has.
    pub fn with(self, ip: Ipv4Addr, names: &NameSet) -> (r: AddrMap)
        ensures
            r@ == add_names(self@, ip, names@),
    {
        proof {
            use_type_invariant(&self);
        }
        let (at, found) = self.position(ip);
        let added = if found {
            proof {
                self.lemma_entry(at as int);
            }
            self.items[at].1.clone().union(names)
        } else {
            names.clone()
        };
        let ghost before = self;
        let ghost value = added@;
        let mut items = self.items;
        if found {
            items.set(at, (ip, added));
            assert(keys_of(items@) =~= keys_of(before.items@));
        } else {
            items.insert(at, (ip, added));
            proof {
                let k = keys_of(before.items@);
                let u = keys_of(items@);
                assert(u =~= k.insert(at as int, ip));
                assert forall|a: int, b: int| 0 <= a < b < u.len() implies #[trigger] addr_lt()(
                    u[a],
                    u[b],
                ) by {
                    if b < at {
                        assert(addr_lt()(k[a], k[b]));
                    } else if a > at {
                        assert(addr_lt()(k[a - 1], k[b - 1]));
                    } else if b == at {
                        assert(before.items@[a].0.bits < ip.bits);
                    } else if a == at {
                        assert(ip.bits < before.items@[b - 1].0.bits);
                    } else {
                        assert(addr_lt()(k[a], k[b - 1]));
                    }
                }
                lemma_insert_to_set(k, at as int, ip);
            }
        }
        let r = AddrMap { items };
        proof {
            let want = add_names(before@, ip, names@);
            r.lemma_domain();
            before.lemma_domain();
            r.lemma_entry(at as int);
            assert(r.items@[at as int].0 == ip);
            assert(want.dom() =~= before@.dom().insert(ip));
            if found {
                assert(before@.dom().contains(ip));
            }
            assert(r@.dom() =~= want.dom());
            assert forall|q: Ipv4Addr| r@.contains_key(q) implies r@[q] == want[q] by {
                if q != ip {
                    let kb = keys_of(before.items@);
                    assert(before@.contains_key(q));
                    assert(kb.contains(q));
                    let j = choose|j: int| 0 <= j < kb.len() && kb[j] == q;
                    before.lemma_entry(j);
                    if found || j < at {
                        assert(r.items@[j] == before.items@[j]);
                        r.lemma_entry(j);
                    } else {
                        assert(r.items@[j + 1] == before.items@[j]);
                        r.lemma_entry(j + 1);
                    }
                }
            }
            assert(r@ =~= want);
        }
        r
    }

    /// Whether both maps hold the same addresses with the same names.
    pub fn same(&self, other: &AddrMap) -> (r: bool)
        ensures
            r == (self@ == other@),
    {
        let a = self.keys();
        let b = other.keys();
        if a.len() != b.len() {
            return false;
        }
        let mut i: usize = 0;
        while i < a.len()
            invariant
                i <= a@.len() == b@.len(),
                a@ == in_order(self@.dom(), addr_lt()),
                b@ == in_order(other@.dom(), addr_lt()),
                a@.to_set() == self@.dom(),
                b@.to_set() == other@.dom(),
                forall|k: int|
                    0 <= k < i ==> #[trigger] a@[k] == b@[k] && self@[a@[k]] == other@[a@[k]],
            decreases a@.len() - i,
        {
            proof {
                assert(a@.contains(a@[i as int]));
                assert(self@.dom().contains(a@[i as int]));
                assert(b@.contains(b@[i as int]));
                assert(other@.dom().contains(b@[i as int]));
            }
            if a[i].bits != b[i].bits {
                assert(a@[i as int] != b@[i as int]);
                return false;
            }
            assert(a@[i as int] == b@[i as int]);
            match (self.get(a[i]), other.get(b[i])) {
                (Some(x), Some(y)) => {
                    if !x.same(y) {
                        return false;
                    }
                },
                _ => {
                    assert(false);
                },
            }
            i += 1;
        }
        proof {
            assert(a@ =~= b@);
            assert forall|q: Ipv4Addr| self@.contains_key(q) implies self@[q] == other@[q] by {
                assert(a@.to_set().contains(q));
                let k = choose|k: int| 0 <= k < a@.len() && a@[k] == q;
                assert(a@[k] == b@[k]);
            }
            assert(self@ =~= other@);
        }
        true
    }
}

impl Clone for AddrMap {
    fn clone(&self) -> (r: AddrMap)
        ensures
            r@ == self@,
    {
        let mut items: Vec<(Ipv4Addr, NameSet)> = Vec::new();
        let mut i: usize = 0;
        while i < self.items.len()
            invariant
                i == items@.len(),
                i <= self.items@.len(),
                forall|k: int|
                    0 <= k < i ==> (#[trigger] items@[k]).0 == self.items@[k].0 && items@[k].1@
                        == self.items@[k].1@,
            decreases self.items@.len() - i,
        {
            items.push((self.items[i].0, self.items[i].1.clone()));
            i += 1;
        }
        proof {
            use_type_invariant(self);
            assert(keys_of(items@) =~= keys_of(self.items@));
        }
        let r = AddrMap { items };
        proof {
            r.lemma_domain();
            self.lemma_domain();
            assert forall|q: Ipv4Addr| r@.contains_key(q) implies r@[q] == self@[q] by {
                let k = keys_of(self.items@);
                assert(k.contains(q));
                let j = choose|j: int| 0 <= j < k.len() && k[j] == q;
                self.lemma_entry(j);
                r.lemma_entry(j);
            }
            assert(r@ =~= self@);
        }
        r
    }
}

} // verus!
