//! The metrics text is well formed: one header per family, followed by all its
//! samples.

use vstd::prelude::*;
use crate::fresh::listed_times;
use crate::number::{is_digit, lemma_numeral_digits, numeral};
use crate::order::{in_order, lemma_in_order_finite, lemma_name_total, name_lt};
use crate::plan::from_answer;
use crate::round_trip::{
    lemma_lines_concat, lemma_lines_cut, lemma_one_line_concat, lines_text, one_line,
};
use crate::status::{
    address_samples, age_samples, bit, count_families, endpoint_families, families,
    families_text, family_header, family_text, flag_families, fresh_samples, mode_sample,
    name_label, plain, sample_lines, Family, Sample, ShownView, StatusView,
};
use crate::text::pieces;

verus! {

// ---------------------------------------------------------------------------
// Lines
// ---------------------------------------------------------------------------

/// The line of a sample, without its line feed.
pub open spec fn sample_row(name: Seq<char>, s: Sample) -> Seq<char> {
    name + s.0 + " "@ + s.1
}

/// The lines of a family: its two header lines, then one line per sample.
pub open spec fn family_rows(f: Family) -> Seq<Seq<char>> {
    seq!["# HELP "@ + f.name + " "@ + f.help, "# TYPE "@ + f.name + " gauge"@]
        + f.samples.map_values(|s: Sample| sample_row(f.name, s))
}

/// The lines of all families, one family after the other.
pub open spec fn metric_rows(fs: Seq<Family>) -> Seq<Seq<char>>
    decreases fs.len(),
{
    if fs.len() == 0 {
        Seq::empty()
    } else {
        metric_rows(fs.drop_last()) + family_rows(fs.last())
    }
}

/// Nothing in the family holds a line feed.
spec fn tidy(f: Family) -> bool {
    &&& one_line(f.name)
    &&& one_line(f.help)
    &&& forall|k: int|
        0 <= k < f.samples.len() ==> one_line((#[trigger] f.samples[k]).0) && one_line(
            f.samples[k].1,
        )
}

proof fn lemma_sample_rows(name: Seq<char>, samples: Seq<Sample>)
    ensures
        sample_lines(name, samples) == lines_text(
            samples.map_values(|s: Sample| sample_row(name, s)),
        ),
    decreases samples.len(),
{
    let rows = samples.map_values(|s: Sample| sample_row(name, s));
    if samples.len() > 0 {
        let d = samples.drop_last();
        lemma_sample_rows(name, d);
        assert(rows.drop_last() =~= d.map_values(|s: Sample| sample_row(name, s)));
        assert(sample_lines(name, samples) =~= lines_text(rows));
    } else {
        assert(rows =~= Seq::<Seq<char>>::empty());
    }
}

proof fn lemma_family_rows(f: Family)
    requires
        tidy(f),
    ensures
        family_text(f) == lines_text(family_rows(f)),
        forall|k: int| 0 <= k < family_rows(f).len() ==> one_line(#[trigger] family_rows(f)[k]),
{
    let help = "# HELP "@ + f.name + " "@ + f.help;
    let kind = "# TYPE "@ + f.name + " gauge"@;
    let head = seq![help, kind];
    let rows = f.samples.map_values(|s: Sample| sample_row(f.name, s));
    reveal_strlit("# HELP ");
    reveal_strlit(" ");
    reveal_strlit("\n# TYPE ");
    reveal_strlit("# TYPE ");
    reveal_strlit(" gauge\n");
    reveal_strlit(" gauge");
    reveal_strlit("\n");
    lemma_sample_rows(f.name, f.samples);
    lemma_lines_concat(head, rows);
    reveal_with_fuel(lines_text, 3);
    assert(head.drop_last() =~= seq![help]);
    assert(seq![help].drop_last() =~= Seq::<Seq<char>>::empty());
    assert("\n# TYPE "@ =~= "\n"@ + "# TYPE "@);
    assert(" gauge\n"@ =~= " gauge"@ + "\n"@);
    assert(lines_text(head) =~= family_header(f.name, f.help));
    lemma_one_line_concat("# HELP "@, f.name);
    lemma_one_line_concat("# HELP "@ + f.name, " "@);
    lemma_one_line_concat("# HELP "@ + f.name + " "@, f.help);
    lemma_one_line_concat("# TYPE "@, f.name);
    lemma_one_line_concat("# TYPE "@ + f.name, " gauge"@);
    assert forall|k: int| 0 <= k < family_rows(f).len() implies one_line(
        #[trigger] family_rows(f)[k],
    ) by {
        if k >= 2 {
            let s = f.samples[k - 2];
            assert(family_rows(f)[k] == sample_row(f.name, s));
            assert(one_line(s.0) && one_line(s.1));
            lemma_one_line_concat(f.name, s.0);
            lemma_one_line_concat(f.name + s.0, " "@);
            lemma_one_line_concat(f.name + s.0 + " "@, s.1);
        }
    }
}

proof fn lemma_metric_rows(fs: Seq<Family>)
    requires
        forall|k: int| 0 <= k < fs.len() ==> tidy(#[trigger] fs[k]),
    ensures
        families_text(fs) == lines_text(metric_rows(fs)),
        forall|k: int| 0 <= k < metric_rows(fs).len() ==> one_line(#[trigger] metric_rows(fs)[k]),
    decreases fs.len(),
{
    if fs.len() > 0 {
        let d = fs.drop_last();
        assert forall|k: int| 0 <= k < d.len() implies tidy(#[trigger] d[k]) by {
            assert(tidy(fs[k]));
        }
        lemma_metric_rows(d);
        assert(tidy(fs[fs.len() - 1]));
        lemma_family_rows(fs.last());
        lemma_lines_concat(metric_rows(d), family_rows(fs.last()));
        let n = metric_rows(d).len();
        assert forall|k: int| 0 <= k < metric_rows(fs).len() implies one_line(
            #[trigger] metric_rows(fs)[k],
        ) by {
            if k < n {
                assert(metric_rows(fs)[k] == metric_rows(d)[k]);
            } else {
                assert(metric_rows(fs)[k] == family_rows(fs.last())[k - n]);
            }
        }
    }
}

// ---------------------------------------------------------------------------
// Labels and values
// ---------------------------------------------------------------------------

proof fn lemma_numeral_line(n: nat)
    ensures
        one_line(numeral(n)),
{
    lemma_numeral_digits(n);
    let s = numeral(n);
    assert forall|i: int| 0 <= i < s.len() implies #[trigger] s[i] != '\n' by {
        assert(is_digit(s[i]));
    }
}

proof fn lemma_bit_line(b: bool)
    ensures
        one_line(bit(b)),
{
    reveal_strlit("1");
    reveal_strlit("0");
}

proof fn lemma_label_line(name: Seq<char>)
    requires
        one_line(name),
    ensures
        one_line(name_label(name)),
{
    reveal_strlit("{name=\"");
    reveal_strlit("\"}");
    lemma_one_line_concat("{name=\""@, name);
    lemma_one_line_concat("{name=\""@ + name, "\"}"@);
}

proof fn lemma_mode_line(mode: Seq<char>, current: Seq<char>)
    requires
        one_line(mode),
    ensures
        one_line(mode_sample(mode, current).0),
        one_line(mode_sample(mode, current).1),
{
    reveal_strlit("{mode=\"");
    reveal_strlit("\"}");
    lemma_one_line_concat("{mode=\""@, mode);
    lemma_one_line_concat("{mode=\""@ + mode, "\"}"@);
    lemma_bit_line(current == mode);
}

/// A single sample is tidy if its value is on one line.
proof fn lemma_plain_tidy(name: Seq<char>, help: Seq<char>, value: Seq<char>)
    requires
        one_line(name),
        one_line(help),
        one_line(value),
    ensures
        tidy(Family { name, help, samples: plain(value) }),
{
}

/// The names that appear in labels, and the texts of the times, hold no line
/// feed.
pub open spec fn texts_on_one_line(s: StatusView, shown: ShownView) -> bool {
    &&& forall|k: int| 0 <= k < s.endpoints.len() ==> one_line((#[trigger] s.endpoints[k]).name)
    &&& s.last_fresh.dom().finite()
    &&& forall|n: Seq<char>| #[trigger] s.last_fresh.contains_key(n) ==> one_line(n)
    &&& one_line(shown.generated)
    &&& shown.ages.len() == s.last_fresh.dom().len()
    &&& forall|k: int| 0 <= k < shown.ages.len() ==> one_line(#[trigger] shown.ages[k])
}

proof fn lemma_last_run_texts()
    ensures
        one_line("egress_resolver_last_run_uptime_seconds"@),
        one_line("System uptime when egress-resolver last ran."@),
{
    reveal_strlit("egress_resolver_last_run_uptime_seconds");
    reveal_strlit("System uptime when egress-resolver last ran.");
}

proof fn lemma_apply_ok_texts()
    ensures
        one_line("egress_resolver_apply_ok"@),
        one_line("1 if the firewall chains hold the planned policy."@),
{
    reveal_strlit("egress_resolver_apply_ok");
    reveal_strlit("1 if the firewall chains hold the planned policy.");
}

proof fn lemma_hosts_ok_texts()
    ensures
        one_line("egress_resolver_hosts_ok"@),
        one_line("1 if the container hosts file was written from the installed policy."@),
{
    reveal_strlit("egress_resolver_hosts_ok");
    reveal_strlit("1 if the container hosts file was written from the installed policy.");
}

proof fn lemma_conntrack_ok_texts()
    ensures
        one_line("egress_resolver_conntrack_ok"@),
        one_line("1 if every attempted conntrack deletion succeeded."@),
{
    reveal_strlit("egress_resolver_conntrack_ok");
    reveal_strlit("1 if every attempted conntrack deletion succeeded.");
}

proof fn lemma_satisfied_texts()
    ensures
        one_line("egress_resolver_required_satisfied"@),
        one_line("1 if every required endpoint has an installed, published address."@),
{
    reveal_strlit("egress_resolver_required_satisfied");
    reveal_strlit("1 if every required endpoint has an installed, published address.");
}

proof fn lemma_fresh_texts()
    ensures
        one_line("egress_resolver_required_fresh"@),
        one_line("1 if every required endpoint was resolved by a fresh authenticated answer in the last run."@),
{
    reveal_strlit("egress_resolver_required_fresh");
    reveal_strlit("1 if every required endpoint was resolved by a fresh authenticated answer in the last run.");
}

proof fn lemma_production_texts()
    ensures
        one_line("egress_resolver_production_addresses"@),
        one_line("Addresses currently allowed in production mode."@),
{
    reveal_strlit("egress_resolver_production_addresses");
    reveal_strlit("Addresses currently allowed in production mode.");
}

proof fn lemma_maintenance_texts()
    ensures
        one_line("egress_resolver_maintenance_addresses"@),
        one_line("Addresses dropped in maintenance mode (seen since boot)."@),
{
    reveal_strlit("egress_resolver_maintenance_addresses");
    reveal_strlit("Addresses dropped in maintenance mode (seen since boot).");
}

proof fn lemma_kill_failed_texts()
    ensures
        one_line("egress_resolver_kill_failed"@),
        one_line("Destinations whose conntrack deletion failed in the last run."@),
{
    reveal_strlit("egress_resolver_kill_failed");
    reveal_strlit("Destinations whose conntrack deletion failed in the last run.");
}

proof fn lemma_errors_texts()
    ensures
        one_line("egress_resolver_errors"@),
        one_line("Number of errors recorded in the last run."@),
{
    reveal_strlit("egress_resolver_errors");
    reveal_strlit("Number of errors recorded in the last run.");
}

proof fn lemma_mode_texts()
    ensures
        one_line("egress_resolver_mode"@),
        one_line("Current searcher network mode (1 for the active one)."@),
{
    reveal_strlit("egress_resolver_mode");
    reveal_strlit("Current searcher network mode (1 for the active one).");
}

proof fn lemma_addresses_texts()
    ensures
        one_line("egress_resolver_endpoint_addresses"@),
        one_line("Addresses for an endpoint name."@),
{
    reveal_strlit("egress_resolver_endpoint_addresses");
    reveal_strlit("Addresses for an endpoint name.");
}

proof fn lemma_endpoint_fresh_texts()
    ensures
        one_line("egress_resolver_endpoint_fresh"@),
        one_line("1 if the endpoint's addresses come from a fresh authenticated answer."@),
{
    reveal_strlit("egress_resolver_endpoint_fresh");
    reveal_strlit("1 if the endpoint's addresses come from a fresh authenticated answer.");
}

proof fn lemma_fresh_age_texts()
    ensures
        one_line("egress_resolver_endpoint_fresh_age_seconds"@),
        one_line("Seconds since the endpoint's installed addresses last came from a fresh answer (absent if never this boot)."@),
{
    reveal_strlit("egress_resolver_endpoint_fresh_age_seconds");
    reveal_strlit("Seconds since the endpoint's installed addresses last came from a fresh answer (absent if never this boot).");
}

proof fn lemma_flags_tidy(s: StatusView, shown: ShownView)
    requires
        one_line(shown.generated),
    ensures
        forall|k: int|
            0 <= k < flag_families(s, shown).len() ==> tidy(#[trigger] flag_families(s, shown)[k]),
{
    lemma_bit_line(s.apply_ok);
    lemma_bit_line(s.hosts_ok);
    lemma_bit_line(s.conntrack_ok);
    lemma_bit_line(s.required_satisfied);
    lemma_bit_line(s.required_fresh);
    lemma_last_run_texts();
    lemma_plain_tidy(
        "egress_resolver_last_run_uptime_seconds"@,
        "System uptime when egress-resolver last ran."@,
        shown.generated,
    );
    lemma_apply_ok_texts();
    lemma_plain_tidy(
        "egress_resolver_apply_ok"@,
        "1 if the firewall chains hold the planned policy."@,
        bit(s.apply_ok),
    );
    lemma_hosts_ok_texts();
    lemma_plain_tidy(
        "egress_resolver_hosts_ok"@,
        "1 if the container hosts file was written from the installed policy."@,
        bit(s.hosts_ok),
    );
    lemma_conntrack_ok_texts();
    lemma_plain_tidy(
        "egress_resolver_conntrack_ok"@,
        "1 if every attempted conntrack deletion succeeded."@,
        bit(s.conntrack_ok),
    );
    lemma_satisfied_texts();
    lemma_plain_tidy(
        "egress_resolver_required_satisfied"@,
        "1 if every required endpoint has an installed, published address."@,
        bit(s.required_satisfied),
    );
    lemma_fresh_texts();
    lemma_plain_tidy(
        "egress_resolver_required_fresh"@,
        "1 if every required endpoint was resolved by a fresh authenticated answer in the last run."@,
        bit(s.required_fresh),
    );
}

proof fn lemma_counts_tidy(s: StatusView)
    ensures
        forall|k: int| 0 <= k < count_families(s).len() ==> tidy(#[trigger] count_families(s)[k]),
{
    lemma_numeral_line(s.production.len());
    lemma_numeral_line(s.maintenance.len());
    lemma_numeral_line(s.kill_failed.len());
    lemma_numeral_line(s.errors.len());
    lemma_production_texts();
    lemma_plain_tidy(
        "egress_resolver_production_addresses"@,
        "Addresses currently allowed in production mode."@,
        numeral(s.production.len()),
    );
    lemma_maintenance_texts();
    lemma_plain_tidy(
        "egress_resolver_maintenance_addresses"@,
        "Addresses dropped in maintenance mode (seen since boot)."@,
        numeral(s.maintenance.len()),
    );
    lemma_kill_failed_texts();
    lemma_plain_tidy(
        "egress_resolver_kill_failed"@,
        "Destinations whose conntrack deletion failed in the last run."@,
        numeral(s.kill_failed.len()),
    );
    lemma_errors_texts();
    lemma_plain_tidy(
        "egress_resolver_errors"@,
        "Number of errors recorded in the last run."@,
        numeral(s.errors.len()),
    );
}

proof fn lemma_endpoints_tidy(s: StatusView, shown: ShownView)
    requires
        texts_on_one_line(s, shown),
    ensures
        forall|k: int|
            0 <= k < endpoint_families(s, shown).len() ==> tidy(
                #[trigger] endpoint_families(s, shown)[k],
            ),
{
    let fs = endpoint_families(s, shown);
    lemma_mode_texts();
    lemma_addresses_texts();
    lemma_endpoint_fresh_texts();
    lemma_fresh_age_texts();
    reveal_strlit("production");
    reveal_strlit("maintenance");
    reveal_strlit("stopped");
    lemma_mode_line("production"@, s.mode);
    lemma_mode_line("maintenance"@, s.mode);
    lemma_mode_line("stopped"@, s.mode);
    assert(tidy(fs[0]));
    assert forall|k: int| 0 <= k < s.endpoints.len() implies one_line(
        (#[trigger] address_samples(s.endpoints)[k]).0,
    ) && one_line(address_samples(s.endpoints)[k].1) by {
        lemma_label_line(s.endpoints[k].name);
        lemma_numeral_line(s.endpoints[k].addrs.len());
    }
    assert(tidy(fs[1]));
    assert forall|k: int| 0 <= k < s.endpoints.len() implies one_line(
        (#[trigger] fresh_samples(s.endpoints)[k]).0,
    ) && one_line(fresh_samples(s.endpoints)[k].1) by {
        lemma_label_line(s.endpoints[k].name);
        lemma_bit_line(from_answer(s.endpoints[k].source));
    }
    assert(tidy(fs[2]));
    let keys = in_order(s.last_fresh.dom(), name_lt());
    let times = listed_times(s.last_fresh);
    lemma_name_total();
    lemma_in_order_finite(s.last_fresh.dom(), name_lt());
    assert forall|k: int| 0 <= k < times.len() implies one_line(
        (#[trigger] age_samples(times, shown.ages)[k]).0,
    ) && one_line(age_samples(times, shown.ages)[k].1) by {
        assert(keys.contains(keys[k]));
        assert(keys.to_set().contains(keys[k]));
        lemma_label_line(times[k].0);
        assert(one_line(shown.ages[k]));
    }
    assert(tidy(fs[3]));
}

/// A number that tells the family names apart.
spec fn tag(name: Seq<char>) -> int {
    name.len() * 1000 + name[16] as int
}

/// The families of a status have pairwise different names.
proof fn lemma_names_differ(s: StatusView, shown: ShownView)
    ensures
        forall|i: int, j: int|
            0 <= i < j < families(s, shown).len() ==> (#[trigger] families(s, shown)[i]).name != (
            #[trigger] families(s, shown)[j]).name,
{
    let fs = families(s, shown);
    reveal_strlit("egress_resolver_last_run_uptime_seconds");
    reveal_strlit("egress_resolver_apply_ok");
    reveal_strlit("egress_resolver_hosts_ok");
    reveal_strlit("egress_resolver_conntrack_ok");
    reveal_strlit("egress_resolver_required_satisfied");
    reveal_strlit("egress_resolver_required_fresh");
    reveal_strlit("egress_resolver_production_addresses");
    reveal_strlit("egress_resolver_maintenance_addresses");
    reveal_strlit("egress_resolver_kill_failed");
    reveal_strlit("egress_resolver_errors");
    reveal_strlit("egress_resolver_mode");
    reveal_strlit("egress_resolver_endpoint_addresses");
    reveal_strlit("egress_resolver_endpoint_fresh");
    reveal_strlit("egress_resolver_endpoint_fresh_age_seconds");
    assert(fs[0].name == "egress_resolver_last_run_uptime_seconds"@ && tag(fs[0].name) == 39108);
    assert(fs[1].name == "egress_resolver_apply_ok"@ && tag(fs[1].name) == 24097);
    assert(fs[2].name == "egress_resolver_hosts_ok"@ && tag(fs[2].name) == 24104);
    assert(fs[3].name == "egress_resolver_conntrack_ok"@ && tag(fs[3].name) == 28099);
    assert(fs[4].name == "egress_resolver_required_satisfied"@ && tag(fs[4].name) == 34114);
    assert(fs[5].name == "egress_resolver_required_fresh"@ && tag(fs[5].name) == 30114);
    assert(fs[6].name == "egress_resolver_production_addresses"@ && tag(fs[6].name) == 36112);
    assert(fs[7].name == "egress_resolver_maintenance_addresses"@ && tag(fs[7].name) == 37109);
    assert(fs[8].name == "egress_resolver_kill_failed"@ && tag(fs[8].name) == 27107);
    assert(fs[9].name == "egress_resolver_errors"@ && tag(fs[9].name) == 22101);
    assert(fs[10].name == "egress_resolver_mode"@ && tag(fs[10].name) == 20109);
    assert(fs[11].name == "egress_resolver_endpoint_addresses"@ && tag(fs[11].name) == 34101);
    assert(fs[12].name == "egress_resolver_endpoint_fresh"@ && tag(fs[12].name) == 30101);
    assert(fs[13].name == "egress_resolver_endpoint_fresh_age_seconds"@ && tag(fs[13].name) == 42101);
    let tags: Seq<int> = seq![39108, 24097, 24104, 28099, 34114, 30114, 36112, 37109, 27107, 22101, 20109, 34101, 30101, 42101];
    assert(fs.len() == tags.len());
    assert forall|k: int| 0 <= k < fs.len() implies tag((#[trigger] fs[k]).name) == tags[k] by {}
    assert forall|i: int, j: int| 0 <= i < j < tags.len() implies tags[i] != tags[j] by {}
    assert forall|i: int, j: int| 0 <= i < j < fs.len() implies (#[trigger] fs[i]).name != (
    #[trigger] fs[j]).name by {
        assert(tags[i] != tags[j]);
    }
}

/// The metrics text, line by line: every family's two header lines directly
/// followed by all its samples, and no two families have the same name. So
/// there is exactly one header per family, and no sample stands elsewhere.
pub proof fn law_metrics_are_well_formed(s: StatusView, shown: ShownView)
    requires
        texts_on_one_line(s, shown),
    ensures
        pieces(families_text(families(s, shown)), '\n') == metric_rows(families(s, shown)).push(Seq::empty()),
        forall|i: int, j: int|
            0 <= i < j < families(s, shown).len() ==> (#[trigger] families(s, shown)[i]).name != (
            #[trigger] families(s, shown)[j]).name,
{
    let fs = families(s, shown);
    let (a, b, c) = (flag_families(s, shown), count_families(s), endpoint_families(s, shown));
    lemma_flags_tidy(s, shown);
    lemma_counts_tidy(s);
    lemma_endpoints_tidy(s, shown);
    assert forall|k: int| 0 <= k < fs.len() implies tidy(#[trigger] fs[k]) by {
        if k < a.len() {
            assert(fs[k] == a[k]);
        } else if k < a.len() + b.len() {
            assert(fs[k] == b[k - a.len()]);
        } else {
            assert(fs[k] == c[k - a.len() - b.len()]);
        }
    }
    lemma_metric_rows(fs);
    lemma_lines_cut(metric_rows(fs));
    lemma_names_differ(s, shown);
}

} // verus!
