//! The status of a run, its Prometheus textfile, and what the next run carries
//! forward from it.

use vstd::prelude::*;
use crate::addr::Ipv4Addr;
use crate::fresh::{listed_times, stamps, FreshTimes, Times};
use crate::number::{number_text, numeral};
use crate::plan::{from_answer, is_fresh, states_of, NameState, StateView};
use crate::secs::Secs;
use crate::text::{same_text, texts};

verus! {

pub const SCHEMA: u32 = 2;

#[derive(Debug, PartialEq, Eq)]
pub struct Status {
    pub schema: u32,
    /// Identifies the boot, so a reader can detect a stale file from a
    /// previous one.
    pub boot_id: String,
    /// Uptime when this status was written. Readers compare against the
    /// current uptime: monotonic, not host-adjustable.
    pub generated_uptime_secs: Secs,
    /// Uptime when the DNS answers were produced, if usable.
    pub answers_uptime_secs: Option<Secs>,
    /// Generation time of the answers most recently applied, by this run or an
    /// earlier one of the same boot.
    pub applied_answers_uptime_secs: Option<Secs>,
    /// The searcher network mode at apply time.
    pub mode: String,
    /// The firewall chains hold exactly the planned policy (rewritten, or
    /// confirmed unchanged, and verified by reading them back).
    pub apply_ok: bool,
    /// The container hosts file was written from the installed policy.
    pub hosts_ok: bool,
    /// Every conntrack deletion the sweep attempted succeeded.
    pub conntrack_ok: bool,
    /// Every `required` endpoint has at least one installed address and the
    /// hosts file publishes it. This is what `toggle` gates production on.
    pub required_satisfied: bool,
    /// Every `required` endpoint's addresses come from a fresh authenticated
    /// answer in this run rather than last-known-good.
    pub required_fresh: bool,
    /// Per endpoint name, the uptime of the last run whose installed addresses
    /// came from a fresh authenticated answer. Absent for a name that has
    /// never had a fresh answer this boot.
    pub last_fresh_uptime_secs: FreshTimes,
    pub endpoints: Vec<NameState>,
    pub production: Vec<Ipv4Addr>,
    pub maintenance: Vec<Ipv4Addr>,
    pub added: Vec<Ipv4Addr>,
    pub removed: Vec<Ipv4Addr>,
    /// Destinations whose conntrack entries were deleted successfully.
    pub killed: Vec<Ipv4Addr>,
    /// Destinations whose deletion failed; retried on the next run.
    pub kill_failed: Vec<Ipv4Addr>,
    pub errors: Vec<String>,
}

/// The contents of a [`Status`].
pub struct StatusView {
    pub schema: u32,
    pub boot_id: Seq<char>,
    pub generated: Secs,
    pub answers: Option<Secs>,
    pub applied: Option<Secs>,
    pub mode: Seq<char>,
    pub apply_ok: bool,
    pub hosts_ok: bool,
    pub conntrack_ok: bool,
    pub required_satisfied: bool,
    pub required_fresh: bool,
    pub last_fresh: Times,
    pub endpoints: Seq<StateView>,
    pub production: Seq<Ipv4Addr>,
    pub maintenance: Seq<Ipv4Addr>,
    pub added: Seq<Ipv4Addr>,
    pub removed: Seq<Ipv4Addr>,
    pub killed: Seq<Ipv4Addr>,
    pub kill_failed: Seq<Ipv4Addr>,
    pub errors: Seq<Seq<char>>,
}

impl View for Status {
    type V = StatusView;

    open spec fn view(&self) -> StatusView {
        StatusView {
            schema: self.schema,
            boot_id: self.boot_id@,
            generated: self.generated_uptime_secs,
            answers: self.answers_uptime_secs,
            applied: self.applied_answers_uptime_secs,
            mode: self.mode@,
            apply_ok: self.apply_ok,
            hosts_ok: self.hosts_ok,
            conntrack_ok: self.conntrack_ok,
            required_satisfied: self.required_satisfied,
            required_fresh: self.required_fresh,
            last_fresh: self.last_fresh_uptime_secs@,
            endpoints: states_of(self.endpoints@),
            production: self.production@,
            maintenance: self.maintenance@,
            added: self.added@,
            removed: self.removed@,
            killed: self.killed@,
            kill_failed: self.kill_failed@,
            errors: texts(self.errors@),
        }
    }
}

/// The subset of a previous status that the next run carries forward.
#[derive(Debug, PartialEq, Eq)]
pub struct PrevStatus {
    pub boot_id: String,
    pub answers_uptime_secs: Option<Secs>,
    pub applied_answers_uptime_secs: Option<Secs>,
    pub last_fresh_uptime_secs: FreshTimes,
}

impl Default for PrevStatus {
    fn default() -> (r: PrevStatus)
        ensures
            r.boot_id@ == Seq::<char>::empty(),
            r.answers_uptime_secs is None,
            r.applied_answers_uptime_secs is None,
            r.last_fresh_uptime_secs@ == Times::empty(),
    {
        PrevStatus {
            boot_id: String::new(),
            answers_uptime_secs: None,
            applied_answers_uptime_secs: None,
            last_fresh_uptime_secs: FreshTimes::new(),
        }
    }
}

impl PrevStatus {
    /// The previous run's status, if it could be read and was written during
    /// this boot. Anything else is ignored.
    pub fn load(parsed: Option<PrevStatus>, boot_id: &str) -> (r: Option<PrevStatus>)
        ensures
            r == (match parsed {
                Some(p) => if p.boot_id@ == boot_id@ {
                    Some(p)
                } else {
                    None
                },
                None => None,
            }),
    {
        match parsed {
            Some(p) => if same_text(p.boot_id.as_str(), boot_id) {
                Some(p)
            } else {
                None
            },
            None => None,
        }
    }
}

// ---------------------------------------------------------------------------
// Metrics
// ---------------------------------------------------------------------------

/// One line of a metric family: its labels and its value.
pub type Sample = (Seq<char>, Seq<char>);

/// A metric family: its name, its help text and its samples.
pub struct Family {
    pub name: Seq<char>,
    pub help: Seq<char>,
    pub samples: Seq<Sample>,
}

/// The line of one sample.
pub open spec fn sample_line(name: Seq<char>, s: Sample) -> Seq<char> {
    name + s.0 + " "@ + s.1 + "\n"@
}

/// The lines of all samples.
pub open spec fn sample_lines(name: Seq<char>, samples: Seq<Sample>) -> Seq<char>
    decreases samples.len(),
{
    if samples.len() == 0 {
        Seq::empty()
    } else {
        sample_lines(name, samples.drop_last()) + sample_line(name, samples.last())
    }
}

/// The two header lines of a family.
pub open spec fn family_header(name: Seq<char>, help: Seq<char>) -> Seq<char> {
    "# HELP "@ + name + " "@ + help + "\n# TYPE "@ + name + " gauge\n"@
}

/// A family's header lines followed by all its samples.
pub open spec fn family_text(f: Family) -> Seq<char> {
    family_header(f.name, f.help) + sample_lines(f.name, f.samples)
}

/// All families, one after the other.
pub open spec fn families_text(fs: Seq<Family>) -> Seq<char>
    decreases fs.len(),
{
    if fs.len() == 0 {
        Seq::empty()
    } else {
        families_text(fs.drop_last()) + family_text(fs.last())
    }
}

/// 1 for true, 0 for false.
pub open spec fn bit(b: bool) -> Seq<char> {
    if b {
        "1"@
    } else {
        "0"@
    }
}

/// A single sample without labels.
pub open spec fn plain(value: Seq<char>) -> Seq<Sample> {
    seq![(Seq::<char>::empty(), value)]
}

/// A sample of the mode family.
pub open spec fn mode_sample(mode: Seq<char>, current: Seq<char>) -> Sample {
    ("{mode=\""@ + mode + "\"}"@, bit(current == mode))
}

/// The label that names an endpoint.
pub open spec fn name_label(name: Seq<char>) -> Seq<char> {
    "{name=\""@ + name + "\"}"@
}

/// The number of addresses of each endpoint.
pub open spec fn address_samples(names: Seq<StateView>) -> Seq<Sample> {
    names.map_values(|s: StateView| (name_label(s.name), numeral(s.addrs.len())))
}

/// Whether each endpoint's state comes from an authenticated answer.
pub open spec fn fresh_samples(names: Seq<StateView>) -> Seq<Sample> {
    names.map_values(|s: StateView| (name_label(s.name), bit(from_answer(s.source))))
}

/// The times that a status shows, as texts.
#[derive(Debug, PartialEq, Eq)]
pub struct ShownTimes {
    /// When the status was generated, in seconds.
    pub generated: String,
    /// For every name with a last fresh time, in ascending order of name, the
    /// seconds from then to the generation of the status, at least zero.
    pub ages: Vec<String>,
}

/// The contents of a [`ShownTimes`].
pub struct ShownView {
    pub generated: Seq<char>,
    pub ages: Seq<Seq<char>>,
}

impl View for ShownTimes {
    type V = ShownView;

    open spec fn view(&self) -> ShownView {
        ShownView { generated: self.generated@, ages: texts(self.ages@) }
    }
}

/// The time since each name's last fresh answer.
pub open spec fn age_samples(times: Seq<(Seq<char>, Secs)>, ages: Seq<Seq<char>>) -> Seq<Sample> {
    Seq::new(times.len(), |i: int| (name_label(times[i].0), ages[i]))
}

/// The families that tell what went well.
pub open spec fn flag_families(s: StatusView, shown: ShownView) -> Seq<Family> {
    seq![
        Family {
            name: "egress_resolver_last_run_uptime_seconds"@,
            help: "System uptime when egress-resolver last ran."@,
            samples: plain(shown.generated),
        },
        Family {
            name: "egress_resolver_apply_ok"@,
            help: "1 if the firewall chains hold the planned policy."@,
            samples: plain(bit(s.apply_ok)),
        },
        Family {
            name: "egress_resolver_hosts_ok"@,
            help: "1 if the container hosts file was written from the installed policy."@,
            samples: plain(bit(s.hosts_ok)),
        },
        Family {
            name: "egress_resolver_conntrack_ok"@,
            help: "1 if every attempted conntrack deletion succeeded."@,
            samples: plain(bit(s.conntrack_ok)),
        },
        Family {
            name: "egress_resolver_required_satisfied"@,
            help: "1 if every required endpoint has an installed, published address."@,
            samples: plain(bit(s.required_satisfied)),
        },
        Family {
            name: "egress_resolver_required_fresh"@,
            help: "1 if every required endpoint was resolved by a fresh authenticated answer in the last run."@,
            samples: plain(bit(s.required_fresh)),
        },
    ]
}

/// The families that count.
pub open spec fn count_families(s: StatusView) -> Seq<Family> {
    seq![
        Family {
            name: "egress_resolver_production_addresses"@,
            help: "Addresses currently allowed in production mode."@,
            samples: plain(numeral(s.production.len())),
        },
        Family {
            name: "egress_resolver_maintenance_addresses"@,
            help: "Addresses dropped in maintenance mode (seen since boot)."@,
            samples: plain(numeral(s.maintenance.len())),
        },
        Family {
            name: "egress_resolver_kill_failed"@,
            help: "Destinations whose conntrack deletion failed in the last run."@,
            samples: plain(numeral(s.kill_failed.len())),
        },
        Family {
            name: "egress_resolver_errors"@,
            help: "Number of errors recorded in the last run."@,
            samples: plain(numeral(s.errors.len())),
        },
    ]
}

/// The families with one sample per mode or endpoint.
pub open spec fn endpoint_families(s: StatusView, shown: ShownView) -> Seq<Family> {
    seq![
        Family {
            name: "egress_resolver_mode"@,
            help: "Current searcher network mode (1 for the active one)."@,
            samples: seq![
                mode_sample("production"@, s.mode),
                mode_sample("maintenance"@, s.mode),
                mode_sample("stopped"@, s.mode),
            ],
        },
        Family {
            name: "egress_resolver_endpoint_addresses"@,
            help: "Addresses for an endpoint name."@,
            samples: address_samples(s.endpoints),
        },
        Family {
            name: "egress_resolver_endpoint_fresh"@,
            help: "1 if the endpoint's addresses come from a fresh authenticated answer."@,
            samples: fresh_samples(s.endpoints),
        },
        Family {
            name: "egress_resolver_endpoint_fresh_age_seconds"@,
            help: "Seconds since the endpoint's installed addresses last came from a fresh answer (absent if never this boot)."@,
            samples: age_samples(listed_times(s.last_fresh), shown.ages),
        },
    ]
}

/// The metric families of a status whose times are shown as `shown`.
pub open spec fn families(s: StatusView, shown: ShownView) -> Seq<Family> {
    flag_families(s, shown) + count_families(s) + endpoint_families(s, shown)
}

/// The text of a longer list is that of its parts.
proof fn lemma_families_concat(a: Seq<Family>, b: Seq<Family>)
    ensures
        families_text(a + b) == families_text(a) + families_text(b),
    decreases b.len(),
{
    if b.len() == 0 {
        assert(a + b == a);
    } else {
        assert((a + b).drop_last() == a + b.drop_last());
        lemma_families_concat(a, b.drop_last());
    }
}

/// A text that holds the first families holds one more after that one is
/// appended.
proof fn lemma_families_next(start: Seq<char>, fs: Seq<Family>, i: int, before: Seq<char>)
    requires
        0 <= i < fs.len(),
        before == start + families_text(fs.take(i)),
    ensures
        before + family_text(fs[i]) == start + families_text(fs.take(i + 1)),
{
    assert(fs.take(i + 1).drop_last() == fs.take(i));
    assert(before + family_text(fs[i]) =~= start + families_text(fs.take(i + 1)));
}

/// The contents of a list of samples.
spec fn samples_of(v: Seq<(String, String)>) -> Seq<Sample> {
    v.map_values(|s: (String, String)| (s.0@, s.1@))
}

fn bit_text(b: bool) -> (r: String)
    ensures
        r@ == bit(b),
{
    if b {
        "1".to_owned()
    } else {
        "0".to_owned()
    }
}

fn name_label_text(name: &str) -> (r: String)
    ensures
        r@ == name_label(name@),
{
    let mut s = "{name=\"".to_owned();
    s.append(name);
    s.append("\"}");
    s
}

/// Appends a family.
fn push_family(out: &mut String, name: &str, help: &str, samples: &Vec<(String, String)>)
    ensures
        final(out)@ == old(out)@ + family_text(
            (Family { name: name@, help: help@, samples: samples_of(samples@) }),
        ),
{
    let ghost start = out@;
    let ghost all = samples_of(samples@);
    let ghost head = family_header(name@, help@);
    out.append("# HELP ");
    out.append(name);
    out.append(" ");
    out.append(help);
    out.append("\n# TYPE ");
    out.append(name);
    out.append(" gauge\n");
    assert(out@ =~= start + head);
    let mut i: usize = 0;
    while i < samples.len()
        invariant
            i <= samples@.len(),
            all == samples_of(samples@),
            out@ == start + head + sample_lines(name@, all.take(i as int)),
        decreases samples@.len() - i,
    {
        let ghost before = out@;
        out.append(name);
        out.append(samples[i].0.as_str());
        out.append(" ");
        out.append(samples[i].1.as_str());
        out.append("\n");
        proof {
            assert(out@ =~= before + sample_line(name@, all[i as int]));
            assert(all.take(i + 1).drop_last() == all.take(i as int));
            assert(out@ =~= start + head + sample_lines(name@, all.take(i + 1)));
        }
        i += 1;
    }
    assert(all.take(i as int) == all);
    assert(out@ =~= start + family_text(
        (Family { name: name@, help: help@, samples: samples_of(samples@) }),
    ));
}

/// Appends a family with a single sample without labels.
fn push_plain(out: &mut String, name: &str, help: &str, value: String)
    ensures
        final(out)@ == old(out)@ + family_text(
            (Family { name: name@, help: help@, samples: plain(value@) }),
        ),
{
    let ghost v = value@;
    let mut samples: Vec<(String, String)> = Vec::new();
    samples.push((String::new(), value));
    assert(samples_of(samples@) =~= plain(v));
    push_family(out, name, help, &samples);
}

fn push_mode(v: &mut Vec<(String, String)>, mode: &str, current: &str)
    ensures
        samples_of(final(v)@) == samples_of(old(v)@).push(mode_sample(mode@, current@)),
{
    let mut label = "{mode=\"".to_owned();
    label.append(mode);
    label.append("\"}");
    let ghost want = samples_of(v@).push(mode_sample(mode@, current@));
    v.push((label, bit_text(same_text(current, mode))));
    assert(samples_of(v@) =~= want);
}

impl Status {
    /// True when the whole reconciliation succeeded.
    pub fn all_ok(&self) -> (r: bool)
        ensures
            r == (self.apply_ok && self.hosts_ok && self.conntrack_ok),
    {
        self.apply_ok && self.hosts_ok && self.conntrack_ok
    }

    fn address_counts(&self) -> (r: Vec<(String, String)>)
        ensures
            samples_of(r@) == address_samples(self@.endpoints),
    {
        let ghost want = address_samples(self@.endpoints);
        let mut out: Vec<(String, String)> = Vec::new();
        let mut i: usize = 0;
        while i < self.endpoints.len()
            invariant
                i <= self.endpoints@.len(),
                want == address_samples(states_of(self.endpoints@)),
                samples_of(out@) == want.take(i as int),
            decreases self.endpoints@.len() - i,
        {
            let e = &self.endpoints[i];
            assert(want.take(i + 1) == want.take(i as int).push(want[i as int]));
            out.push((name_label_text(e.name.as_str()), number_text(e.addrs.len() as u64)));
            assert(samples_of(out@) =~= want.take(i + 1));
            i += 1;
        }
        assert(want.take(i as int) == want);
        out
    }

    fn fresh_flags(&self) -> (r: Vec<(String, String)>)
        ensures
            samples_of(r@) == fresh_samples(self@.endpoints),
    {
        let ghost want = fresh_samples(self@.endpoints);
        let mut out: Vec<(String, String)> = Vec::new();
        let mut i: usize = 0;
        while i < self.endpoints.len()
            invariant
                i <= self.endpoints@.len(),
                want == fresh_samples(states_of(self.endpoints@)),
                samples_of(out@) == want.take(i as int),
            decreases self.endpoints@.len() - i,
        {
            let e = &self.endpoints[i];
            assert(want.take(i + 1) == want.take(i as int).push(want[i as int]));
            out.push((name_label_text(e.name.as_str()), bit_text(is_fresh(e.source))));
            assert(samples_of(out@) =~= want.take(i + 1));
            i += 1;
        }
        assert(want.take(i as int) == want);
        out
    }

    fn fresh_ages(&self, shown: &ShownTimes) -> (r: Vec<(String, String)>)
        requires
            shown.ages@.len() == self@.last_fresh.dom().len(),
        ensures
            samples_of(r@) == age_samples(listed_times(self@.last_fresh), shown@.ages),
    {
        let times = self.last_fresh_uptime_secs.list();
        let ghost want = age_samples(stamps(times@), shown@.ages);
        let mut out: Vec<(String, String)> = Vec::new();
        let mut i: usize = 0;
        while i < times.len()
            invariant
                i <= times@.len() == shown.ages@.len(),
                want == age_samples(stamps(times@), shown@.ages),
                samples_of(out@) == want.take(i as int),
            decreases times@.len() - i,
        {
            assert(want.take(i + 1) == want.take(i as int).push(want[i as int]));
            assert(shown@.ages[i as int] == shown.ages@[i as int]@);
            out.push((name_label_text(times[i].0.as_str()), shown.ages[i].clone()));
            assert(samples_of(out@) =~= want.take(i + 1));
            i += 1;
        }
        assert(want.take(i as int) == want);
        out
    }

    /// Appends the families that tell what went well.
    fn push_flags(&self, shown: &ShownTimes, out: &mut String)
        ensures
            final(out)@ == old(out)@ + families_text(flag_families(self@, shown@)),
    {
        let ghost start = out@;
        let ghost fs = flag_families(self@, shown@);
        assert(out@ =~= start + families_text(fs.take(0)));
        proof {
            lemma_families_next(start, fs, 0, out@);
        }
        push_plain(
            out,
            "egress_resolver_last_run_uptime_seconds",
            "System uptime when egress-resolver last ran.",
            shown.generated.clone(),
        );
        proof {
            lemma_families_next(start, fs, 1, out@);
        }
        push_plain(
            out,
            "egress_resolver_apply_ok",
            "1 if the firewall chains hold the planned policy.",
            bit_text(self.apply_ok),
        );
        proof {
            lemma_families_next(start, fs, 2, out@);
        }
        push_plain(
            out,
            "egress_resolver_hosts_ok",
            "1 if the container hosts file was written from the installed policy.",
            bit_text(self.hosts_ok),
        );
        proof {
            lemma_families_next(start, fs, 3, out@);
        }
        push_plain(
            out,
            "egress_resolver_conntrack_ok",
            "1 if every attempted conntrack deletion succeeded.",
            bit_text(self.conntrack_ok),
        );
        proof {
            lemma_families_next(start, fs, 4, out@);
        }
        push_plain(
            out,
            "egress_resolver_required_satisfied",
            "1 if every required endpoint has an installed, published address.",
            bit_text(self.required_satisfied),
        );
        proof {
            lemma_families_next(start, fs, 5, out@);
        }
        push_plain(
            out,
            "egress_resolver_required_fresh",
            "1 if every required endpoint was resolved by a fresh authenticated answer in the last run.",
            bit_text(self.required_fresh),
        );
        assert(fs.take(6) == fs);
    }

    /// Appends the families that count.
    fn push_counts(&self, out: &mut String)
        ensures
            final(out)@ == old(out)@ + families_text(count_families(self@)),
    {
        let ghost start = out@;
        let ghost fs = count_families(self@);
        assert(out@ =~= start + families_text(fs.take(0)));
        proof {
            lemma_families_next(start, fs, 0, out@);
        }
        push_plain(
            out,
            "egress_resolver_production_addresses",
            "Addresses currently allowed in production mode.",
            number_text(self.production.len() as u64),
        );
        proof {
            lemma_families_next(start, fs, 1, out@);
        }
        push_plain(
            out,
            "egress_resolver_maintenance_addresses",
            "Addresses dropped in maintenance mode (seen since boot).",
            number_text(self.maintenance.len() as u64),
        );
        proof {
            lemma_families_next(start, fs, 2, out@);
        }
        push_plain(
            out,
            "egress_resolver_kill_failed",
            "Destinations whose conntrack deletion failed in the last run.",
            number_text(self.kill_failed.len() as u64),
        );
        proof {
            lemma_families_next(start, fs, 3, out@);
        }
        push_plain(
            out,
            "egress_resolver_errors",
            "Number of errors recorded in the last run.",
            number_text(self.errors.len() as u64),
        );
        assert(fs.take(4) == fs);
    }

    /// Appends the families with one sample per mode or endpoint.
    fn push_endpoints(&self, shown: &ShownTimes, out: &mut String)
        requires
            shown.ages@.len() == self@.last_fresh.dom().len(),
        ensures
            final(out)@ == old(out)@ + families_text(endpoint_families(self@, shown@)),
    {
        let ghost start = out@;
        let ghost fs = endpoint_families(self@, shown@);
        assert(out@ =~= start + families_text(fs.take(0)));
        let mut modes: Vec<(String, String)> = Vec::new();
        push_mode(&mut modes, "production", self.mode.as_str());
        push_mode(&mut modes, "maintenance", self.mode.as_str());
        push_mode(&mut modes, "stopped", self.mode.as_str());
        assert(samples_of(modes@) =~= fs[0].samples);
        proof {
            lemma_families_next(start, fs, 0, out@);
        }
        push_family(
            out,
            "egress_resolver_mode",
            "Current searcher network mode (1 for the active one).",
            &modes,
        );
        proof {
            lemma_families_next(start, fs, 1, out@);
        }
        push_family(
            out,
            "egress_resolver_endpoint_addresses",
            "Addresses for an endpoint name.",
            &self.address_counts(),
        );
        proof {
            lemma_families_next(start, fs, 2, out@);
        }
        push_family(
            out,
            "egress_resolver_endpoint_fresh",
            "1 if the endpoint's addresses come from a fresh authenticated answer.",
            &self.fresh_flags(),
        );
        proof {
            lemma_families_next(start, fs, 3, out@);
        }
        push_family(
            out,
            "egress_resolver_endpoint_fresh_age_seconds",
            "Seconds since the endpoint's installed addresses last came from a fresh answer (absent if never this boot).",
            &self.fresh_ages(shown),
        );
        assert(fs.take(4) == fs);
    }

    /// Prometheus textfile-collector format.
    ///
    /// Every metric family is emitted exactly once (`# HELP`/`# TYPE` followed
    /// by all its samples); the text-format parser rejects repeated headers.
    /// `shown` holds the texts of the times, one age per last fresh time.
    pub fn to_metrics(&self, shown: &ShownTimes) -> (r: String)
        requires
            shown.ages@.len() == self@.last_fresh.dom().len(),
        ensures
            r@ == families_text(families(self@, shown@)),
    {
        let mut m = String::new();
        self.push_flags(shown, &mut m);
        self.push_counts(&mut m);
        self.push_endpoints(shown, &mut m);
        proof {
            let (a, b, c) = (
                flag_families(self@, shown@),
                count_families(self@),
                endpoint_families(self@, shown@),
            );
            lemma_families_concat(a, b);
            lemma_families_concat(a + b, c);
            assert(m@ =~= families_text(a) + families_text(b) + families_text(c));
        }
        m
    }
}

} // verus!
