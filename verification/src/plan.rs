//! Pure planning logic: merge fresh answers with the current kernel state.
//!
//! * A name that resolved gets its fresh addresses.
//! * A name with an authenticated negative answer (`Empty`) is cleared.
//! * A name that failed transiently keeps its last-known-good addresses, read
//!   back from the production chain's rule comments.
//! * The production set is the union over all names; the maintenance set is the
//!   union of the current maintenance chain and the new production set, so it
//!   only ever grows while the box is up.
//! * If the production set would exceed `max_addresses`, the previous chain is
//!   kept, every name describes that chain, and an error is recorded.

use vstd::prelude::*;

use crate::addr::{addr_texts, clone_addrs, join_addrs, Ipv4Addr};
use crate::addr_map::{AddrMap, AddrNames};
use crate::answers::{result_for, Answers, NameResult, Outcome};
use crate::config::{normalize_name, normalized, Config, Endpoint};
use crate::iptables::{entries_to_map, rules_map, rules_of, RuleEntry};
use crate::name_set::NameSet;
use crate::number::{number_text, numeral};
use crate::order::{addr_lt, in_order, lemma_addr_order, lemma_ascending_filter, lemma_in_order};
use crate::text::{clone_opt, joined, opt_text};
use crate::validate::{global_unicast, is_global_unicast};

verus! {

/// Where a name's addresses in the plan came from.
#[derive(Debug, Clone, Copy, PartialEq, Eq, Structural)]
pub enum Source {
    /// Fresh authenticated answer.
    Fresh,
    /// Transient failure; previous addresses retained from the kernel.
    LastKnownGood,
    /// Authenticated negative answer; name intentionally has no addresses.
    Empty,
    /// Transient failure and nothing previously known.
    Missing,
}

#[derive(Debug, PartialEq, Eq)]
pub struct NameState {
    pub name: String,
    pub required: bool,
    pub outcome: Outcome,
    pub source: Source,
    pub addrs: Vec<Ipv4Addr>,
    pub error: Option<String>,
}

/// The contents of a [`NameState`].
pub struct StateView {
    pub name: Seq<char>,
    pub required: bool,
    pub outcome: Outcome,
    pub source: Source,
    pub addrs: Seq<Ipv4Addr>,
    pub error: Option<Seq<char>>,
}

impl View for NameState {
    type V = StateView;

    open spec fn view(&self) -> StateView {
        StateView {
            name: self.name@,
            required: self.required,
            outcome: self.outcome,
            source: self.source,
            addrs: self.addrs@,
            error: opt_text(self.error),
        }
    }
}

/// The contents of a list of states.
pub open spec fn states_of(v: Seq<NameState>) -> Seq<StateView> {
    v.map_values(|s: NameState| s@)
}

impl Clone for NameState {
    fn clone(&self) -> (r: NameState)
        ensures
            r@ == self@,
    {
        NameState {
            name: self.name.clone(),
            required: self.required,
            outcome: self.outcome,
            source: self.source,
            addrs: clone_addrs(&self.addrs),
            error: clone_opt(&self.error),
        }
    }
}

#[derive(Debug, PartialEq, Eq)]
pub struct Plan {
    pub names: Vec<NameState>,
    pub production: AddrMap,
    pub maintenance: AddrMap,
    pub added: Vec<Ipv4Addr>,
    pub removed: Vec<Ipv4Addr>,
    /// Set when the production chain was deliberately left unchanged.
    pub error: Option<String>,
}

/// The contents of a [`Plan`].
pub struct PlanView {
    pub names: Seq<StateView>,
    pub production: AddrNames,
    pub maintenance: AddrNames,
    pub added: Seq<Ipv4Addr>,
    pub removed: Seq<Ipv4Addr>,
    pub error: Option<Seq<char>>,
}

impl View for Plan {
    type V = PlanView;

    open spec fn view(&self) -> PlanView {
        PlanView {
            names: states_of(self.names@),
            production: self.production@,
            maintenance: self.maintenance@,
            added: self.added@,
            removed: self.removed@,
            error: opt_text(self.error),
        }
    }
}

// ---------------------------------------------------------------------------
// Readiness
// ---------------------------------------------------------------------------

/// Every required name has at least one address.
pub open spec fn all_required_have_addrs(names: Seq<StateView>) -> bool {
    forall|i: int|
        0 <= i < names.len() && (#[trigger] names[i]).required ==> names[i].addrs.len() > 0
}

/// The state comes from an authenticated answer of this run.
pub open spec fn from_answer(s: Source) -> bool {
    s == Source::Fresh || s == Source::Empty
}

/// Every required name's state comes from an authenticated answer of this run.
pub open spec fn all_required_are_fresh(names: Seq<StateView>) -> bool {
    forall|i: int|
        0 <= i < names.len() && (#[trigger] names[i]).required ==> from_answer(names[i].source)
}

/// Whether a state comes from an authenticated answer of this run.
pub fn is_fresh(s: Source) -> (r: bool)
    ensures
        r == from_answer(s),
{
    s == Source::Fresh || s == Source::Empty
}

/// True when every `required` endpoint has at least one address.
pub fn required_satisfied(names: &Vec<NameState>) -> (r: bool)
    ensures
        r == all_required_have_addrs(states_of(names@)),
{
    let ghost all = states_of(names@);
    let mut i: usize = 0;
    while i < names.len()
        invariant
            i <= names@.len(),
            all == states_of(names@),
            forall|k: int| 0 <= k < i && (#[trigger] all[k]).required ==> all[k].addrs.len() > 0,
        decreases names@.len() - i,
    {
        assert(all[i as int] == names@[i as int]@);
        if names[i].required && names[i].addrs.len() == 0 {
            return false;
        }
        i += 1;
    }
    true
}

/// True when every `required` endpoint's addresses come from a fresh
/// authenticated answer rather than last-known-good.
pub fn required_fresh(names: &Vec<NameState>) -> (r: bool)
    ensures
        r == all_required_are_fresh(states_of(names@)),
{
    let ghost all = states_of(names@);
    let mut i: usize = 0;
    while i < names.len()
        invariant
            i <= names@.len(),
            all == states_of(names@),
            forall|k: int| 0 <= k < i && (#[trigger] all[k]).required ==> from_answer(all[k].source),
        decreases names@.len() - i,
    {
        assert(all[i as int] == names@[i as int]@);
        if names[i].required && !is_fresh(names[i].source) {
            return false;
        }
        i += 1;
    }
    true
}

impl Plan {
    /// True when every `required` endpoint has at least one address.
    pub fn required_satisfied(&self) -> (r: bool)
        ensures
            r == all_required_have_addrs(states_of(self.names@)),
    {
        required_satisfied(&self.names)
    }
}

// ---------------------------------------------------------------------------
// One name
// ---------------------------------------------------------------------------

/// The addresses that carry `name`, in ascending order.
pub open spec fn addrs_of(m: AddrNames, name: Seq<char>) -> Seq<Ipv4Addr> {
    in_order(m.dom().filter(|ip: Ipv4Addr| m[ip].contains(name)), addr_lt())
}

/// A name that keeps what it had.
pub open spec fn kept(
    name: Seq<char>,
    required: bool,
    previous: Seq<Ipv4Addr>,
    error: Seq<char>,
) -> StateView {
    StateView {
        name,
        required,
        outcome: Outcome::Transient,
        source: if previous.len() == 0 {
            Source::Missing
        } else {
            Source::LastKnownGood
        },
        addrs: previous,
        error: Some(error),
    }
}

/// The first occurrence of every element.
pub open spec fn distinct(s: Seq<Ipv4Addr>) -> Seq<Ipv4Addr>
    decreases s.len(),
{
    if s.len() == 0 {
        s
    } else {
        let d = distinct(s.drop_last());
        if d.contains(s.last()) {
            d
        } else {
            d.push(s.last())
        }
    }
}

/// The addresses that may never be allowed.
pub open spec fn forbidden(addrs: Seq<Ipv4Addr>) -> Seq<Ipv4Addr> {
    addrs.filter(|ip: Ipv4Addr| !global_unicast(ip))
}

/// What becomes of one name, given its result (if any) and its previous
/// addresses.
pub open spec fn planned_state(
    name: Seq<char>,
    required: bool,
    result: Option<NameResult>,
    previous: Seq<Ipv4Addr>,
) -> StateView {
    match result {
        None => kept(name, required, previous, "no result for name"@),
        Some(r) => match r.outcome {
            Outcome::Resolved => if r.addrs@.len() == 0 {
                kept(name, required, previous, "ok outcome without addresses"@)
            } else if forbidden(r.addrs@).len() > 0 {
                kept(
                    name,
                    required,
                    previous,
                    "answer contains non-global address(es): ["@ + joined(
                        addr_texts(forbidden(r.addrs@)),
                        ", "@,
                    ) + "]"@,
                )
            } else {
                StateView {
                    name,
                    required,
                    outcome: Outcome::Resolved,
                    source: Source::Fresh,
                    addrs: distinct(r.addrs@),
                    error: None,
                }
            },
            Outcome::Empty => StateView {
                name,
                required,
                outcome: Outcome::Empty,
                source: Source::Empty,
                addrs: Seq::empty(),
                error: opt_text(r.error),
            },
            Outcome::Transient => kept(
                name,
                required,
                previous,
                match r.error {
                    Some(e) => e@,
                    None => "transient failure"@,
                },
            ),
        },
    }
}

/// The state of every endpoint according to the answers, in config order.
pub open spec fn planned_states(
    endpoints: Seq<Endpoint>,
    results: Seq<NameResult>,
    current: AddrNames,
) -> Seq<StateView> {
    Seq::new(
        endpoints.len(),
        |i: int|
            planned_state(
                normalized(endpoints[i].name@),
                endpoints[i].required,
                result_for(results, normalized(endpoints[i].name@)),
                addrs_of(current, normalized(endpoints[i].name@)),
            ),
    )
}

/// The state of every endpoint according to the kernel alone.
pub open spec fn kernel_states(
    endpoints: Seq<Endpoint>,
    current: AddrNames,
    reason: Seq<char>,
) -> Seq<StateView> {
    Seq::new(
        endpoints.len(),
        |i: int|
            kept(
                normalized(endpoints[i].name@),
                endpoints[i].required,
                addrs_of(current, normalized(endpoints[i].name@)),
                reason,
            ),
    )
}

fn lkg(name: &str, required: bool, previous: Vec<Ipv4Addr>, error: String) -> (r: NameState)
    ensures
        r@ == kept(name@, required, previous@, error@),
{
    let source = if previous.len() == 0 {
        Source::Missing
    } else {
        Source::LastKnownGood
    };
    NameState {
        name: name.to_owned(),
        required,
        outcome: Outcome::Transient,
        source,
        addrs: previous,
        error: Some(error),
    }
}

/// The addresses that carry `name`, in ascending order.
pub fn addrs_with_name(m: &AddrMap, name: &str) -> (r: Vec<Ipv4Addr>)
    ensures
        r@ == addrs_of(m@, name@),
{
    let keys = m.keys();
    let ghost p = |ip: Ipv4Addr| m@[ip].contains(name@);
    let mut out: Vec<Ipv4Addr> = Vec::new();
    let mut i: usize = 0;
    assert(keys@.take(0).filter(p) =~= Seq::<Ipv4Addr>::empty()) by {
        reveal(Seq::filter);
    }
    while i < keys.len()
        invariant
            i <= keys@.len(),
            keys@.to_set() == m@.dom(),
            p == (|ip: Ipv4Addr| m@[ip].contains(name@)),
            out@ == keys@.take(i as int).filter(p),
        decreases keys@.len() - i,
    {
        proof {
            assert(keys@.contains(keys@[i as int]));
            assert(m@.dom().contains(keys@[i as int]));
            assert(keys@.take(i + 1) == keys@.take(i as int).push(keys@[i as int]));
            keys@.take(i as int).lemma_filter_push(keys@[i as int], p);
        }
        match m.get(keys[i]) {
            Some(names) => {
                if names.contains(name) {
                    out.push(keys[i]);
                }
            },
            None => {
                assert(false);
            },
        }
        i += 1;
    }
    proof {
        assert(keys@.take(i as int) == keys@);
        lemma_addr_order();
        lemma_ascending_filter(keys@, addr_lt(), p);
        lemma_in_order(out@, addr_lt());
    }
    out
}

fn distinct_addrs(v: &Vec<Ipv4Addr>) -> (r: Vec<Ipv4Addr>)
    ensures
        r@ == distinct(v@),
{
    let mut out: Vec<Ipv4Addr> = Vec::new();
    let mut i: usize = 0;
    while i < v.len()
        invariant
            i <= v@.len(),
            out@ == distinct(v@.take(i as int)),
        decreases v@.len() - i,
    {
        assert(v@.take(i + 1).drop_last() == v@.take(i as int));
        if !has_addr(&out, v[i]) {
            out.push(v[i]);
        }
        i += 1;
    }
    assert(v@.take(i as int) == v@);
    out
}

/// Whether `ip` is one of `v`.
pub fn has_addr(v: &Vec<Ipv4Addr>, ip: Ipv4Addr) -> (r: bool)
    ensures
        r == v@.contains(ip),
{
    let mut i: usize = 0;
    while i < v.len()
        invariant
            i <= v@.len(),
            forall|k: int| 0 <= k < i ==> v@[k] != ip,
        decreases v@.len() - i,
    {
        if v[i].bits == ip.bits {
            assert(v@[i as int] == ip);
            return true;
        }
        i += 1;
    }
    false
}

fn forbidden_addrs(v: &Vec<Ipv4Addr>) -> (r: Vec<Ipv4Addr>)
    ensures
        r@ == forbidden(v@),
{
    let ghost p = |ip: Ipv4Addr| !global_unicast(ip);
    let mut out: Vec<Ipv4Addr> = Vec::new();
    let mut i: usize = 0;
    assert(v@.take(0).filter(p) =~= Seq::<Ipv4Addr>::empty()) by {
        reveal(Seq::filter);
    }
    while i < v.len()
        invariant
            i <= v@.len(),
            p == (|ip: Ipv4Addr| !global_unicast(ip)),
            out@ == v@.take(i as int).filter(p),
        decreases v@.len() - i,
    {
        proof {
            assert(v@.take(i + 1) == v@.take(i as int).push(v@[i as int]));
            v@.take(i as int).lemma_filter_push(v@[i as int], p);
        }
        if !is_global_unicast(v[i]) {
            out.push(v[i]);
        }
        i += 1;
    }
    assert(v@.take(i as int) == v@);
    out
}

/// What becomes of one name.
fn plan_name(name: &str, required: bool, result: Option<&NameResult>, previous: Vec<Ipv4Addr>) -> (r:
    NameState)
    ensures
        r@ == planned_state(
            name@,
            required,
            match result {
                Some(x) => Some(*x),
                None => None,
            },
            previous@,
        ),
{
    let found = match result {
        Some(x) => x,
        None => {
            return lkg(name, required, previous, "no result for name".to_owned());
        },
    };
    match found.outcome {
        Outcome::Resolved => {
            let invalid = forbidden_addrs(&found.addrs);
            if found.addrs.len() == 0 {
                lkg(name, required, previous, "ok outcome without addresses".to_owned())
            } else if invalid.len() > 0 {
                let mut e = "answer contains non-global address(es): [".to_owned();
                e.append(join_addrs(&invalid, ", ").as_str());
                e.append("]");
                lkg(name, required, previous, e)
            } else {
                NameState {
                    name: name.to_owned(),
                    required,
                    outcome: Outcome::Resolved,
                    source: Source::Fresh,
                    addrs: distinct_addrs(&found.addrs),
                    error: None,
                }
            }
        },
        Outcome::Empty => {
            let r = NameState {
                name: name.to_owned(),
                required,
                outcome: Outcome::Empty,
                source: Source::Empty,
                addrs: Vec::new(),
                error: clone_opt(&found.error),
            };
            assert(r@.addrs =~= Seq::<Ipv4Addr>::empty());
            r
        },
        Outcome::Transient => {
            let e = match &found.error {
                Some(e) => e.clone(),
                None => "transient failure".to_owned(),
            };
            lkg(name, required, previous, e)
        },
    }
}

/// The state of every endpoint according to the kernel alone: the addresses
/// whose rules carry its name, and `reason` as the error.
pub fn names_from_kernel(cfg: &Config, production: &[RuleEntry], reason: &str) -> (r: Vec<NameState>)
    ensures
        states_of(r@) == kernel_states(
            cfg.endpoints@,
            rules_map(rules_of(production@)),
            reason@,
        ),
{
    let current = entries_to_map(production);
    let ghost all = kernel_states(cfg.endpoints@, current@, reason@);
    let mut out: Vec<NameState> = Vec::new();
    let mut i: usize = 0;
    while i < cfg.endpoints.len()
        invariant
            i <= cfg.endpoints@.len(),
            all == kernel_states(cfg.endpoints@, current@, reason@),
            states_of(out@) == all.take(i as int),
        decreases cfg.endpoints@.len() - i,
    {
        let name = normalize_name(cfg.endpoints[i].name.as_str());
        let previous = addrs_with_name(&current, name.as_str());
        let s = lkg(name.as_str(), cfg.endpoints[i].required, previous, reason.to_owned());
        assert(all.take(i + 1) == all.take(i as int).push(s@));
        out.push(s);
        assert(states_of(out@) =~= all.take(i + 1));
        i += 1;
    }
    assert(all.take(i as int) == all);
    out
}

fn plan_names(cfg: &Config, answers: &Answers, current: &AddrMap) -> (r: Vec<NameState>)
    ensures
        states_of(r@) == planned_states(cfg.endpoints@, answers.results@, current@),
{
    let ghost all = planned_states(cfg.endpoints@, answers.results@, current@);
    let mut out: Vec<NameState> = Vec::new();
    let mut i: usize = 0;
    while i < cfg.endpoints.len()
        invariant
            i <= cfg.endpoints@.len(),
            all == planned_states(cfg.endpoints@, answers.results@, current@),
            states_of(out@) == all.take(i as int),
        decreases cfg.endpoints@.len() - i,
    {
        let name = normalize_name(cfg.endpoints[i].name.as_str());
        let previous = addrs_with_name(current, name.as_str());
        let s = plan_name(
            name.as_str(),
            cfg.endpoints[i].required,
            answers.find(name.as_str()),
            previous,
        );
        assert(all.take(i + 1) == all.take(i as int).push(s@));
        out.push(s);
        assert(states_of(out@) =~= all.take(i + 1));
        i += 1;
    }
    assert(all.take(i as int) == all);
    out
}

// ---------------------------------------------------------------------------
// The two sets
// ---------------------------------------------------------------------------

/// The names of `ip`; none if it is not in the map.
pub open spec fn names_at(m: AddrNames, ip: Ipv4Addr) -> Set<Seq<char>> {
    if m.contains_key(ip) {
        m[ip]
    } else {
        Set::empty()
    }
}

/// The addresses of both maps, each with the names it has in either.
pub open spec fn merged(a: AddrNames, b: AddrNames) -> AddrNames {
    Map::new(
        |ip: Ipv4Addr| a.contains_key(ip) || b.contains_key(ip),
        |ip: Ipv4Addr| names_at(a, ip).union(names_at(b, ip)),
    )
}

/// Every address of every name, with the names that have it.
pub open spec fn offered(names: Seq<StateView>) -> AddrNames {
    Map::new(
        |ip: Ipv4Addr|
            exists|i: int| 0 <= i < names.len() && (#[trigger] names[i]).addrs.contains(ip),
        |ip: Ipv4Addr|
            Set::new(
                |n: Seq<char>|
                    exists|i: int|
                        0 <= i < names.len() && (#[trigger] names[i]).addrs.contains(ip)
                            && names[i].name == n,
            ),
    )
}

/// `addrs`, each with just `name`.
pub open spec fn spread(addrs: Seq<Ipv4Addr>, name: Seq<char>) -> AddrNames {
    Map::new(|ip: Ipv4Addr| addrs.contains(ip), |ip: Ipv4Addr| set![name])
}

/// The addresses of `a` that `b` lacks, in ascending order.
pub open spec fn missing_from(a: AddrNames, b: AddrNames) -> Seq<Ipv4Addr> {
    in_order(a.dom().filter(|ip: Ipv4Addr| !b.contains_key(ip)), addr_lt())
}

/// The error recorded when more addresses were offered than allowed.
pub open spec fn limit_error(count: nat, max: nat) -> Seq<char> {
    "resolved "@ + numeral(count) + " addresses, more than max_addresses="@ + numeral(max)
        + "; keeping previous chain"@
}

/// The plan for the given answers and kernel state.
pub open spec fn plan_for(
    cfg: Config,
    results: Seq<NameResult>,
    production: AddrNames,
    maintenance: AddrNames,
) -> PlanView {
    let names = planned_states(cfg.endpoints@, results, production);
    let wanted = offered(names);
    if wanted.dom().len() > cfg.firewall.max_addresses {
        let error = limit_error(wanted.dom().len(), cfg.firewall.max_addresses as nat);
        PlanView {
            names: kernel_states(cfg.endpoints@, production, error),
            production,
            maintenance: merged(maintenance, production),
            added: missing_from(production, production),
            removed: missing_from(production, production),
            error: Some(error),
        }
    } else {
        PlanView {
            names,
            production: wanted,
            maintenance: merged(maintenance, wanted),
            added: missing_from(wanted, production),
            removed: missing_from(production, wanted),
            error: None,
        }
    }
}

/// One more name adds its addresses.
pub proof fn lemma_offered_push(names: Seq<StateView>, s: StateView)
    ensures
        offered(names.push(s)) == merged(offered(names), spread(s.addrs, s.name)),
{
    let all = names.push(s);
    let lhs = offered(all);
    let rhs = merged(offered(names), spread(s.addrs, s.name));
    assert forall|ip: Ipv4Addr| lhs.dom().contains(ip) <==> rhs.dom().contains(ip) by {
        if lhs.dom().contains(ip) {
            let i = choose|i: int| 0 <= i < all.len() && (#[trigger] all[i]).addrs.contains(ip);
            if i < names.len() {
                assert(names[i].addrs.contains(ip));
            }
        }
        if offered(names).dom().contains(ip) {
            let i = choose|i: int| 0 <= i < names.len() && (#[trigger] names[i]).addrs.contains(ip);
            assert(all[i].addrs.contains(ip));
        }
        if s.addrs.contains(ip) {
            assert(all[names.len() as int].addrs.contains(ip));
        }
    }
    assert(lhs.dom() =~= rhs.dom());
    assert forall|ip: Ipv4Addr| lhs.dom().contains(ip) implies lhs[ip] == rhs[ip] by {
        assert forall|n: Seq<char>| lhs[ip].contains(n) <==> rhs[ip].contains(n) by {
            if lhs[ip].contains(n) {
                let i = choose|i: int|
                    0 <= i < all.len() && (#[trigger] all[i]).addrs.contains(ip) && all[i].name == n;
                if i < names.len() {
                    assert(names[i].addrs.contains(ip) && names[i].name == n);
                    assert(offered(names)[ip].contains(n));
                }
            }
            if rhs[ip].contains(n) {
                if names_at(offered(names), ip).contains(n) {
                    let i = choose|i: int|
                        0 <= i < names.len() && (#[trigger] names[i]).addrs.contains(ip)
                            && names[i].name == n;
                    assert(all[i].addrs.contains(ip) && all[i].name == n);
                } else {
                    assert(all[names.len() as int].addrs.contains(ip) && all[names.len() as int].name
                        == n);
                }
            }
        }
        assert(lhs[ip] =~= rhs[ip]);
    }
    assert(lhs =~= rhs);
}

/// The map with `name` added to every one of `addrs`.
fn add_addrs(m: AddrMap, addrs: &Vec<Ipv4Addr>, name: &str) -> (r: AddrMap)
    ensures
        r@ == merged(m@, spread(addrs@, name@)),
{
    let ghost start = m@;
    let one = NameSet::new().with(name.to_owned());
    let mut out = m;
    let mut i: usize = 0;
    assert(start =~= merged(start, spread(addrs@.take(0), name@))) by {
        assert forall|ip: Ipv4Addr| start.contains_key(ip) implies start[ip] == merged(
            start,
            spread(addrs@.take(0), name@),
        )[ip] by {
            assert(start[ip] =~= start[ip].union(Set::empty()));
        }
    }
    while i < addrs.len()
        invariant
            i <= addrs@.len(),
            one@ == set![name@],
            out@ == merged(start, spread(addrs@.take(i as int), name@)),
        decreases addrs@.len() - i,
    {
        let ghost before = out@;
        let ghost ip = addrs@[i as int];
        out = out.with(addrs[i], &one);
        proof {
            let next = merged(start, spread(addrs@.take(i + 1), name@));
            assert(addrs@.take(i + 1) == addrs@.take(i as int).push(ip));
            assert forall|q: Ipv4Addr|
                addrs@.take(i + 1).contains(q) <==> addrs@.take(i as int).contains(q) || q == ip by {
                if addrs@.take(i as int).contains(q) {
                    let k = choose|k: int|
                        0 <= k < addrs@.take(i as int).len() && addrs@.take(i as int)[k] == q;
                    assert(addrs@.take(i + 1)[k] == q);
                }
                assert(addrs@.take(i + 1)[i as int] == ip);
            }
            assert(out@.dom() =~= next.dom());
            assert forall|q: Ipv4Addr| out@.contains_key(q) implies out@[q] == next[q] by {
                assert(out@[q] =~= next[q]);
            }
            assert(out@ =~= next);
        }
        i += 1;
    }
    assert(addrs@.take(i as int) == addrs@);
    out
}

fn offer(names: &Vec<NameState>) -> (r: AddrMap)
    ensures
        r@ == offered(states_of(names@)),
{
    let ghost all = states_of(names@);
    let mut out = AddrMap::new();
    let mut i: usize = 0;
    assert(offered(all.take(0)) =~= AddrNames::empty());
    while i < names.len()
        invariant
            i <= names@.len(),
            all == states_of(names@),
            out@ == offered(all.take(i as int)),
        decreases names@.len() - i,
    {
        proof {
            assert(all.take(i + 1) == all.take(i as int).push(names@[i as int]@));
            lemma_offered_push(all.take(i as int), names@[i as int]@);
        }
        out = add_addrs(out, &names[i].addrs, names[i].name.as_str());
        i += 1;
    }
    assert(all.take(i as int) == all);
    out
}

fn merge(a: AddrMap, b: &AddrMap) -> (r: AddrMap)
    ensures
        r@ == merged(a@, b@),
{
    let ghost start = a@;
    let keys = b.keys();
    let mut out = a;
    let mut i: usize = 0;
    assert(start =~= merged(start, b@.restrict(keys@.take(0).to_set()))) by {
        assert forall|ip: Ipv4Addr| start.contains_key(ip) implies start[ip] == merged(
            start,
            b@.restrict(keys@.take(0).to_set()),
        )[ip] by {
            assert(start[ip] =~= start[ip].union(Set::empty()));
        }
    }
    while i < keys.len()
        invariant
            i <= keys@.len(),
            keys@.to_set() == b@.dom(),
            out@ == merged(start, b@.restrict(keys@.take(i as int).to_set())),
        decreases keys@.len() - i,
    {
        let ghost ip = keys@[i as int];
        proof {
            assert(keys@.contains(ip));
            assert(b@.dom().contains(ip));
        }
        match b.get(keys[i]) {
            Some(names) => {
                out = out.with(keys[i], names);
            },
            None => {
                assert(false);
            },
        }
        proof {
            let was = b@.restrict(keys@.take(i as int).to_set());
            let now = b@.restrict(keys@.take(i + 1).to_set());
            let next = merged(start, now);
            assert(keys@.take(i + 1) == keys@.take(i as int).push(ip));
            keys@.take(i as int).lemma_push_to_set_commute(ip);
            assert(out@.dom() =~= next.dom());
            assert forall|q: Ipv4Addr| out@.contains_key(q) implies out@[q] == next[q] by {
                assert(out@[q] =~= next[q]);
            }
            assert(out@ =~= next);
        }
        i += 1;
    }
    assert(keys@.take(i as int) == keys@);
    assert(b@.restrict(b@.dom()) =~= b@);
    out
}

/// The addresses of `a` that `b` lacks, in ascending order.
pub fn absent(a: &AddrMap, b: &AddrMap) -> (r: Vec<Ipv4Addr>)
    ensures
        r@ == missing_from(a@, b@),
{
    let keys = a.keys();
    let ghost p = |ip: Ipv4Addr| !b@.contains_key(ip);
    let mut out: Vec<Ipv4Addr> = Vec::new();
    let mut i: usize = 0;
    assert(keys@.take(0).filter(p) =~= Seq::<Ipv4Addr>::empty()) by {
        reveal(Seq::filter);
    }
    while i < keys.len()
        invariant
            i <= keys@.len(),
            p == (|ip: Ipv4Addr| !b@.contains_key(ip)),
            out@ == keys@.take(i as int).filter(p),
        decreases keys@.len() - i,
    {
        proof {
            assert(keys@.take(i + 1) == keys@.take(i as int).push(keys@[i as int]));
            keys@.take(i as int).lemma_filter_push(keys@[i as int], p);
        }
        if !b.contains_key(keys[i]) {
            out.push(keys[i]);
        }
        i += 1;
    }
    proof {
        assert(keys@.take(i as int) == keys@);
        lemma_addr_order();
        lemma_ascending_filter(keys@, addr_lt(), p);
        lemma_in_order(out@, addr_lt());
    }
    out
}

/// Computes the plan for the given answers and kernel state.
pub fn compute(
    cfg: &Config,
    answers: &Answers,
    current_production: &[RuleEntry],
    current_maintenance: &[RuleEntry],
) -> (r: Plan)
    ensures
        r@ == plan_for(
            *cfg,
            answers.results@,
            rules_map(rules_of(current_production@)),
            rules_map(rules_of(current_maintenance@)),
        ),
{
    let current = entries_to_map(current_production);
    let seen = entries_to_map(current_maintenance);
    let names = plan_names(cfg, answers, &current);
    let wanted = offer(&names);
    let count: usize = wanted.len();
    if count > cfg.firewall.max_addresses {
        let mut error = "resolved ".to_owned();
        error.append(number_text(count as u64).as_str());
        error.append(" addresses, more than max_addresses=");
        error.append(number_text(cfg.firewall.max_addresses as u64).as_str());
        error.append("; keeping previous chain");
        Plan {
            names: names_from_kernel(cfg, current_production, error.as_str()),
            maintenance: merge(seen, &current),
            added: absent(&current, &current),
            removed: absent(&current, &current),
            production: current,
            error: Some(error),
        }
    } else {
        Plan {
            names,
            maintenance: merge(seen, &wanted),
            added: absent(&wanted, &current),
            removed: absent(&current, &wanted),
            production: wanted,
            error: None,
        }
    }
}

} // verus!
