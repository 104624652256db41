//! A whole reconciliation pass, in stages. Between them the program takes the
//! lock, writes the hosts file and reads the mode and the clock; what each
//! stage works on is handed over by the stage before, so the hosts file, the
//! sweep and the status all describe the policy that is installed.

use vstd::prelude::*;

use crate::answers;
use crate::apply::{
    answers_problem, apply_firewall, firewall_calls, firewall_outcome, is_repeated, is_stale,
    load_answers, status_of, summarize, sweep, swept, DatedAnswers, Installed, LoadedAnswers, Swept,
};
use crate::config::Config;
use crate::conntrack::{doomed, kill_calls};
use crate::exec::{calls_in, replies_in, since, Exec};
use crate::fresh::Times;
use crate::hosts;
use crate::hosts::hosts_text;
use crate::secs::Secs;
use crate::status::{PrevStatus, Status};
use crate::text::opt_text;

verus! {

/// A pass that has read what the previous run and the resolve step left.
#[derive(Debug, PartialEq, Eq)]
pub struct Started {
    pub boot_id: String,
    pub prev: PrevStatus,
    pub loaded: LoadedAnswers,
}

/// A pass that has brought the chains in line with the plan, or has failed to.
#[derive(Debug, PartialEq, Eq)]
pub struct Reconciled {
    pub started: Started,
    pub installed: Installed,
    /// The hosts file to publish.
    pub hosts: String,
}

/// A pass that has swept the connections as well.
#[derive(Debug, PartialEq, Eq)]
pub struct Cleaned {
    pub reconciled: Reconciled,
    pub mode: String,
    pub swept: Swept,
}

/// Whether a previous status was written during the boot `boot_id`.
pub open spec fn same_boot(prev: Option<PrevStatus>, boot_id: Seq<char>) -> bool {
    prev matches Some(p) && p.boot_id@ == boot_id
}

/// How a pass begins: with the previous status of the same boot, or none, and
/// with the answers if they are usable, or none and the reason.
pub open spec fn begins(
    r: Started,
    boot_id: Seq<char>,
    prev: Option<PrevStatus>,
    parsed: Result<DatedAnswers, String>,
    path: Seq<char>,
) -> bool {
    &&& r.boot_id@ == boot_id
    &&& same_boot(prev, boot_id) ==> Some(r.prev) == prev
    &&& !same_boot(prev, boot_id) ==> {
        &&& r.prev.boot_id@.len() == 0
        &&& r.prev.answers_uptime_secs is None
        &&& r.prev.applied_answers_uptime_secs is None
        &&& r.prev.last_fresh_uptime_secs@ == Times::empty()
    }
    &&& opt_text(r.loaded.error) == answers_problem(
        parsed,
        path,
        r.prev.applied_answers_uptime_secs,
    )
    &&& r.loaded.error is None ==> {
        &&& parsed is Ok
        &&& r.loaded.answers == parsed->Ok_0.answers
        &&& r.loaded.uptime == Some(r.loaded.answers.generated_uptime_secs)
    }
    &&& r.loaded.error is Some ==> {
        &&& r.loaded.uptime is None
        &&& r.loaded.answers.schema == answers::SCHEMA
        &&& r.loaded.answers.generated_uptime_secs.bits == 0
        &&& r.loaded.answers.results@.len() == 0
    }
}

/// What every pass starts from. It knows what the previous run left if that ran
/// in the same boot, and nothing otherwise. It has the answers that were read
/// if nothing is wrong with them, and none but the reason otherwise.
pub proof fn law_start_of_a_pass(
    r: Started,
    boot_id: Seq<char>,
    prev: Option<PrevStatus>,
    parsed: Result<DatedAnswers, String>,
    path: Seq<char>,
)
    requires
        begins(r, boot_id, prev, parsed, path),
    ensures
        r.boot_id@ == boot_id,
        prev matches Some(p) ==> (p.boot_id@ == boot_id ==> r.prev == p),
        prev is None || prev->0.boot_id@ != boot_id ==> r.prev.applied_answers_uptime_secs is None
            && r.prev.answers_uptime_secs is None && r.prev.last_fresh_uptime_secs@.dom()
            =~= Set::empty(),
        r.loaded.error is None <==> r.loaded.uptime is Some,
        r.loaded.error is None <==> parsed is Ok && parsed->Ok_0.answers.schema == 1 && !is_stale(
            parsed->Ok_0.age,
        ) && !is_repeated(
            parsed->Ok_0.answers.generated_uptime_secs,
            r.prev.applied_answers_uptime_secs,
        ),
        r.loaded.error is None ==> r.loaded.answers == parsed->Ok_0.answers && r.loaded.uptime
            == Some(parsed->Ok_0.answers.generated_uptime_secs),
        r.loaded.error is Some ==> r.loaded.answers.results@.len() == 0,
{
}

/// Begins a pass: `prev` is the previous status file and
/// `parsed` the answers file at `path`, as far as they could be read.
pub fn start(
    boot_id: String,
    prev: Option<PrevStatus>,
    parsed: Result<DatedAnswers, String>,
    path: &str,
) -> (r: Started)
    ensures
        begins(r, boot_id@, prev, parsed, path@),
{
    let prev = match PrevStatus::load(prev, boot_id.as_str()) {
        Some(p) => p,
        None => PrevStatus::default(),
    };
    let loaded = load_answers(parsed, path, prev.applied_answers_uptime_secs);
    Started { boot_id, prev, loaded }
}

impl Started {
    /// Reads the chains, installs the plan if needed, and renders the hosts
    /// file of the policy that is installed then.
    pub fn reconcile<E: Exec>(self, cfg: &Config, exec: &mut E) -> (r: Result<Reconciled, String>)
        ensures
            old(exec).log().is_prefix_of(final(exec).log()),
            calls_in(since(old(exec).log(), final(exec).log())) == firewall_calls(
                *cfg,
                self.loaded.answers.results@,
                replies_in(since(old(exec).log(), final(exec).log())),
            ),
            match firewall_outcome(
                *cfg,
                self.loaded.answers.results@,
                replies_in(since(old(exec).log(), final(exec).log())),
            ) {
                Ok(installed) => r matches Ok(x) && x.started == self && x.installed@ == installed
                    && x.hosts@ == hosts_text(cfg.static_hosts@, installed.names),
                Err(e) => r matches Err(t) && t@ == e,
            },
    {
        match apply_firewall(cfg, &self.loaded.answers, exec) {
            Ok(installed) => {
                let hosts = hosts::render(&cfg.static_hosts, &installed.names);
                Ok(Reconciled { started: self, installed, hosts })
            },
            Err(e) => Err(e),
        }
    }
}

impl Reconciled {
    /// Deletes the connections that must not exist in `mode` under the
    /// installed policy.
    pub fn clean<E: Exec>(self, mode: String, exec: &mut E) -> (r: Cleaned)
        ensures
            old(exec).log().is_prefix_of(final(exec).log()),
            calls_in(since(old(exec).log(), final(exec).log())) == kill_calls(
                doomed(mode@, self.installed@.production, self.installed@.maintenance),
            ),
            r.reconciled == self,
            r.mode@ == mode@,
            r.swept@ == swept(
                doomed(mode@, self.installed@.production, self.installed@.maintenance),
                replies_in(since(old(exec).log(), final(exec).log())),
            ),
    {
        let swept = sweep(
            exec,
            mode.as_str(),
            &self.installed.production,
            &self.installed.maintenance,
        );
        Cleaned { reconciled: self, mode, swept }
    }
}

impl Cleaned {
    /// The status of the pass: `written` is what became of the hosts file at
    /// `hosts_path`, and `generated` the time.
    pub fn finish(self, hosts_path: &str, written: Result<(), String>, generated: Secs) -> (r:
        Status)
        ensures
            r@ == status_of(
                self.reconciled.started.boot_id@,
                generated,
                self.reconciled.started.prev,
                self.reconciled.started.loaded,
                self.reconciled.installed@,
                hosts_path@,
                written,
                self.mode@,
                self.swept@,
            ),
    {
        let Cleaned { reconciled, mode, swept } = self;
        let Reconciled { started, installed, hosts: _ } = reconciled;
        let Started { boot_id, prev, loaded } = started;
        summarize(boot_id, generated, prev, loaded, installed, hosts_path, written, mode, swept)
    }
}

} // verus!
