//! Hand-off format between the unprivileged `resolve` step and the privileged
//! `apply` step.

use vstd::prelude::*;
use crate::addr::{clone_addrs, Ipv4Addr};
use crate::secs::Secs;
use crate::text::{clone_opt, opt_text, same_text};

verus! {

pub const SCHEMA: u32 = 1;

#[derive(Debug, Clone, PartialEq, Eq)]
pub struct Answers {
    pub schema: u32,
    /// Uptime when the answers were produced.
    pub generated_uptime_secs: Secs,
    pub results: Vec<NameResult>,
}

#[derive(Debug, PartialEq, Eq)]
pub struct NameResult {
    /// Normalized hostname (lower-case, no trailing dot).
    pub name: String,
    pub outcome: Outcome,
    /// Validated global-unicast IPv4 addresses, resolver order. Empty unless
    /// `outcome == Resolved`.
    pub addrs: Vec<Ipv4Addr>,
    /// Minimum TTL over the accepted A records.
    pub min_ttl: Option<u32>,
    /// Resolver that produced the accepted answer.
    pub server: Option<String>,
    /// Human readable reason for `Empty` / `Transient`.
    pub error: Option<String>,
}

/// The contents of a [`NameResult`].
pub struct ResultView {
    pub name: Seq<char>,
    pub outcome: Outcome,
    pub addrs: Seq<Ipv4Addr>,
    pub min_ttl: Option<u32>,
    pub server: Option<Seq<char>>,
    pub error: Option<Seq<char>>,
}

impl View for NameResult {
    type V = ResultView;

    open spec fn view(&self) -> ResultView {
        ResultView {
            name: self.name@,
            outcome: self.outcome,
            addrs: self.addrs@,
            min_ttl: self.min_ttl,
            server: opt_text(self.server),
            error: opt_text(self.error),
        }
    }
}

/// The contents of a list of results.
pub open spec fn results_of(v: Seq<NameResult>) -> Seq<ResultView> {
    v.map_values(|r: NameResult| r@)
}

impl Clone for NameResult {
    fn clone(&self) -> (r: NameResult)
        ensures
            r@ == self@,
    {
        NameResult {
            name: self.name.clone(),
            outcome: self.outcome,
            addrs: clone_addrs(&self.addrs),
            min_ttl: self.min_ttl,
            server: clone_opt(&self.server),
            error: clone_opt(&self.error),
        }
    }
}

/// Outcome of resolving one name.
#[derive(Debug, Clone, Copy, PartialEq, Eq, Structural)]
pub enum Outcome {
    /// Authenticated answer with at least one valid A record.
    Resolved,
    /// Authenticated proof that the name has no A records (NODATA or
    /// NXDOMAIN). The name's addresses must be cleared.
    Empty,
    /// No usable answer (SERVFAIL, timeout, TLS failure, missing AD bit,
    /// address outside the allowed ranges, ...). The previous addresses are
    /// kept.
    Transient,
}

/// The position of the first result for `name`.
pub open spec fn result_at(results: Seq<NameResult>, name: Seq<char>) -> Option<int>
    decreases results.len(),
{
    if results.len() == 0 {
        None
    } else {
        match result_at(results.drop_last(), name) {
            Some(i) => Some(i),
            None => if results.last().name@ == name {
                Some(results.len() - 1)
            } else {
                None
            },
        }
    }
}

/// The first result for `name`.
pub open spec fn result_for(results: Seq<NameResult>, name: Seq<char>) -> Option<NameResult> {
    match result_at(results, name) {
        Some(i) => Some(results[i]),
        None => None,
    }
}

/// `result_at` is the first position that holds the name, if any does.
pub proof fn lemma_result_at(results: Seq<NameResult>, name: Seq<char>)
    ensures
        result_at(results, name) matches Some(i) ==> 0 <= i < results.len() && results[i].name@
            == name && forall|k: int| 0 <= k < i ==> (#[trigger] results[k]).name@ != name,
        result_at(results, name) is None ==> forall|k: int|
            0 <= k < results.len() ==> (#[trigger] results[k]).name@ != name,
    decreases results.len(),
{
    if results.len() > 0 {
        let d = results.drop_last();
        lemma_result_at(d, name);
        assert forall|k: int| 0 <= k < d.len() implies d[k] == #[trigger] results[k] by {}
    }
}

impl Answers {
    /// The first result for `name`.
    pub fn find(&self, name: &str) -> (r: Option<&NameResult>)
        ensures
            r is Some <==> result_for(self.results@, name@) is Some,
            r matches Some(x) ==> result_for(self.results@, name@) == Some(*x),
    {
        let mut i: usize = 0;
        while i < self.results.len()
            invariant
                i <= self.results@.len(),
                forall|k: int| 0 <= k < i ==> (#[trigger] self.results@[k]).name@ != name@,
            decreases self.results@.len() - i,
        {
            if same_text(self.results[i].name.as_str(), name) {
                proof {
                    lemma_result_at(self.results@, name@);
                    assert(self.results@[i as int].name@ == name@);
                }
                return Some(&self.results[i]);
            }
            i += 1;
        }
        proof {
            lemma_result_at(self.results@, name@);
        }
        None
    }
}

} // verus!
