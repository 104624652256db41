//! What the metrics text says of a status, line by line.

use vstd::prelude::*;

use crate::batch::{lemma_lists_names, lists_names};
use crate::fresh::listed_times;
use crate::metrics::{family_rows, law_metrics_are_well_formed, metric_rows, texts_on_one_line};
use crate::number::{digits_value, lemma_numeral_value, numeral};
use crate::plan::Source;
use crate::status::{families, families_text, name_label, Family, ShownView, StatusView};
use crate::text::pieces;

verus! {

// ---------------------------------------------------------------------------
// Where the lines stand
// ---------------------------------------------------------------------------

/// The number of lines before family `k`.
spec fn offset(fs: Seq<Family>, k: int) -> int {
    metric_rows(fs.take(k)).len() as int
}

proof fn lemma_offset(fs: Seq<Family>, k: int)
    requires
        0 <= k < fs.len(),
    ensures
        offset(fs, 0) == 0,
        offset(fs, k + 1) == offset(fs, k) + 2 + fs[k].samples.len(),
        offset(fs, fs.len() as int) == metric_rows(fs).len(),
        metric_rows(fs.take(k + 1)) == metric_rows(fs.take(k)) + family_rows(fs[k]),
{
    assert(fs.take(k + 1).drop_last() =~= fs.take(k));
    assert(fs.take(0) =~= Seq::<Family>::empty());
    assert(fs.take(fs.len() as int) =~= fs);
}

/// A line of the first `n` families is a line of all.
proof fn lemma_prefix(fs: Seq<Family>, n: int, i: int)
    requires
        0 <= n <= fs.len(),
        0 <= i < offset(fs, n),
    ensures
        i < metric_rows(fs).len(),
        metric_rows(fs)[i] == metric_rows(fs.take(n))[i],
    decreases fs.len() - n,
{
    if n < fs.len() {
        lemma_offset(fs, n);
        lemma_prefix(fs, n + 1, i);
    } else {
        assert(fs.take(n) =~= fs);
    }
}

/// Line `j` of family `k`.
proof fn lemma_row(fs: Seq<Family>, k: int, j: int)
    requires
        0 <= k < fs.len(),
        0 <= j < 2 + fs[k].samples.len(),
    ensures
        offset(fs, k) + j < metric_rows(fs).len(),
        metric_rows(fs)[offset(fs, k) + j] == family_rows(fs[k])[j],
{
    lemma_offset(fs, k);
    lemma_prefix(fs, k + 1, offset(fs, k) + j);
}

/// Families of one sample each take three lines each.
proof fn lemma_single_offsets(fs: Seq<Family>, n: int)
    requires
        0 <= n <= fs.len(),
        forall|k: int| 0 <= k < n ==> (#[trigger] fs[k]).samples.len() == 1,
        fs.len() > 0,
    ensures
        offset(fs, n) == 3 * n,
    decreases n,
{
    if n == 0 {
        lemma_offset(fs, 0);
    } else {
        lemma_single_offsets(fs, n - 1);
        lemma_offset(fs, n - 1);
        assert(fs[n - 1].samples.len() == 1);
    }
}

/// The first ten families have one sample each; where the others start.
proof fn lemma_layout(s: StatusView, shown: ShownView)
    requires
        s.last_fresh.dom().finite(),
        shown.ages.len() == s.last_fresh.dom().len(),
    ensures
        ({
            let fs = families(s, shown);
            let n = s.endpoints.len();
            &&& fs.len() == 14
            &&& forall|k: int| 0 <= k < 10 ==> (#[trigger] fs[k]).samples.len() == 1
            &&& forall|k: int| 0 <= k <= 10 ==> #[trigger] offset(fs, k) == 3 * k
            &&& offset(fs, 11) == 35
            &&& offset(fs, 12) == 37 + n
            &&& offset(fs, 13) == 39 + 2 * n
            &&& metric_rows(fs).len() == 41 + 2 * n + listed_times(s.last_fresh).len()
        }),
{
    let fs = families(s, shown);
    assert forall|k: int| 0 <= k <= 10 implies #[trigger] offset(fs, k) == 3 * k by {
        lemma_single_offsets(fs, k);
    }
    lemma_offset(fs, 10);
    lemma_offset(fs, 11);
    lemma_offset(fs, 12);
    lemma_offset(fs, 13);
}

// ---------------------------------------------------------------------------
// Families of one sample
// ---------------------------------------------------------------------------

/// The lines from `at` on are a gauge with a single value.
pub open spec fn shows_gauge(
    ls: Seq<Seq<char>>,
    at: int,
    name: Seq<char>,
    help: Seq<char>,
    value: Seq<char>,
) -> bool {
    &&& 0 <= at && at + 2 < ls.len()
    &&& ls[at] == "# HELP "@ + name + " "@ + help
    &&& ls[at + 1] == "# TYPE "@ + name + " gauge"@
    &&& ls[at + 2] == name + " "@ + value
}

proof fn lemma_gauge(s: StatusView, shown: ShownView, k: int, value: Seq<char>)
    requires
        texts_on_one_line(s, shown),
        0 <= k < 10,
        families(s, shown)[k].samples == seq![(Seq::<char>::empty(), value)],
    ensures
        shows_gauge(
            pieces(families_text(families(s, shown)), '\n'),
            3 * k,
            families(s, shown)[k].name,
            families(s, shown)[k].help,
            value,
        ),
{
    let fs = families(s, shown);
    law_metrics_are_well_formed(s, shown);
    lemma_layout(s, shown);
    assert(offset(fs, k) == 3 * k);
    lemma_row(fs, k, 0);
    lemma_row(fs, k, 1);
    lemma_row(fs, k, 2);
    assert(family_rows(fs[k])[2] =~= fs[k].name + " "@ + value);
}

/// The flags, each in its own lines: `1` if the flag is set and `0` if it is
/// not. Before them stands the time of the run.
pub proof fn law_flags_are_shown(s: StatusView, shown: ShownView)
    requires
        texts_on_one_line(s, shown),
    ensures
        ({
            let ls = pieces(families_text(families(s, shown)), '\n');
            &&& shows_gauge(
                ls,
                0,
                "egress_resolver_last_run_uptime_seconds"@,
                "System uptime when egress-resolver last ran."@,
                shown.generated,
            )
            &&& shows_gauge(
                ls,
                3,
                "egress_resolver_apply_ok"@,
                "1 if the firewall chains hold the planned policy."@,
                if s.apply_ok {
                    "1"@
                } else {
                    "0"@
                },
            )
            &&& shows_gauge(
                ls,
                6,
                "egress_resolver_hosts_ok"@,
                "1 if the container hosts file was written from the installed policy."@,
                if s.hosts_ok {
                    "1"@
                } else {
                    "0"@
                },
            )
            &&& shows_gauge(
                ls,
                9,
                "egress_resolver_conntrack_ok"@,
                "1 if every attempted conntrack deletion succeeded."@,
                if s.conntrack_ok {
                    "1"@
                } else {
                    "0"@
                },
            )
            &&& shows_gauge(
                ls,
                12,
                "egress_resolver_required_satisfied"@,
                "1 if every required endpoint has an installed, published address."@,
                if s.required_satisfied {
                    "1"@
                } else {
                    "0"@
                },
            )
            &&& shows_gauge(
                ls,
                15,
                "egress_resolver_required_fresh"@,
                "1 if every required endpoint was resolved by a fresh authenticated answer in the last run."@,
                if s.required_fresh {
                    "1"@
                } else {
                    "0"@
                },
            )
        }),
{
    let fs = families(s, shown);
    lemma_gauge(s, shown, 0, fs[0].samples[0].1);
    lemma_gauge(s, shown, 1, fs[1].samples[0].1);
    lemma_gauge(s, shown, 2, fs[2].samples[0].1);
    lemma_gauge(s, shown, 3, fs[3].samples[0].1);
    lemma_gauge(s, shown, 4, fs[4].samples[0].1);
    lemma_gauge(s, shown, 5, fs[5].samples[0].1);
}

/// The counts, each in its own lines: the number of addresses in production, of
/// addresses in maintenance, of failed deletions and of errors.
pub proof fn law_counts_are_shown(s: StatusView, shown: ShownView)
    requires
        texts_on_one_line(s, shown),
    ensures
        ({
            let ls = pieces(families_text(families(s, shown)), '\n');
            &&& shows_gauge(
                ls,
                18,
                "egress_resolver_production_addresses"@,
                "Addresses currently allowed in production mode."@,
                numeral(s.production.len()),
            )
            &&& shows_gauge(
                ls,
                21,
                "egress_resolver_maintenance_addresses"@,
                "Addresses dropped in maintenance mode (seen since boot)."@,
                numeral(s.maintenance.len()),
            )
            &&& shows_gauge(
                ls,
                24,
                "egress_resolver_kill_failed"@,
                "Destinations whose conntrack deletion failed in the last run."@,
                numeral(s.kill_failed.len()),
            )
            &&& shows_gauge(
                ls,
                27,
                "egress_resolver_errors"@,
                "Number of errors recorded in the last run."@,
                numeral(s.errors.len()),
            )
        }),
{
    let fs = families(s, shown);
    lemma_gauge(s, shown, 6, fs[6].samples[0].1);
    lemma_gauge(s, shown, 7, fs[7].samples[0].1);
    lemma_gauge(s, shown, 8, fs[8].samples[0].1);
    lemma_gauge(s, shown, 9, fs[9].samples[0].1);
}

/// What is shown of a count reads back as that count: behind the name and the
/// space stand the digits of the number of addresses in production, and so for
/// each of the counts, whatever the rest of the status is.
pub proof fn law_counts_read_back(s: StatusView, shown: ShownView)
    requires
        texts_on_one_line(s, shown),
    ensures
        ({
            let ls = pieces(families_text(families(s, shown)), '\n');
            let p = "egress_resolver_production_addresses"@.len();
            let m = "egress_resolver_maintenance_addresses"@.len();
            let k = "egress_resolver_kill_failed"@.len();
            let e = "egress_resolver_errors"@.len();
            &&& digits_value(ls[20].skip(p + 1int)) == s.production.len()
            &&& digits_value(ls[23].skip(m + 1int)) == s.maintenance.len()
            &&& digits_value(ls[26].skip(k + 1int)) == s.kill_failed.len()
            &&& digits_value(ls[29].skip(e + 1int)) == s.errors.len()
        }),
{
    law_counts_are_shown(s, shown);
    lemma_value_read_back("egress_resolver_production_addresses"@, s.production.len());
    lemma_value_read_back("egress_resolver_maintenance_addresses"@, s.maintenance.len());
    lemma_value_read_back("egress_resolver_kill_failed"@, s.kill_failed.len());
    lemma_value_read_back("egress_resolver_errors"@, s.errors.len());
}

proof fn lemma_value_read_back(name: Seq<char>, n: nat)
    ensures
        digits_value((name + " "@ + numeral(n)).skip(name.len() + 1int)) == n,
{
    reveal_strlit(" ");
    lemma_numeral_value(n);
    assert((name + " "@ + numeral(n)).skip(name.len() + 1int) =~= numeral(n));
}

// ---------------------------------------------------------------------------
// Modes and endpoints
// ---------------------------------------------------------------------------

/// The mode, in three lines: `1` at the current one and `0` at the others.
pub proof fn law_mode_is_shown(s: StatusView, shown: ShownView)
    requires
        texts_on_one_line(s, shown),
    ensures
        ({
            let ls = pieces(families_text(families(s, shown)), '\n');
            &&& ls[30] == "# HELP "@ + "egress_resolver_mode"@ + " "@
                + "Current searcher network mode (1 for the active one)."@
            &&& ls[31] == "# TYPE "@ + "egress_resolver_mode"@ + " gauge"@
            &&& ls[32] == "egress_resolver_mode"@ + ("{mode=\""@ + "production"@ + "\"}"@) + " "@
                + (if s.mode == "production"@ {
                "1"@
            } else {
                "0"@
            })
            &&& ls[33] == "egress_resolver_mode"@ + ("{mode=\""@ + "maintenance"@ + "\"}"@) + " "@
                + (if s.mode == "maintenance"@ {
                "1"@
            } else {
                "0"@
            })
            &&& ls[34] == "egress_resolver_mode"@ + ("{mode=\""@ + "stopped"@ + "\"}"@) + " "@ + (
            if s.mode == "stopped"@ {
                "1"@
            } else {
                "0"@
            })
        }),
{
    let fs = families(s, shown);
    law_metrics_are_well_formed(s, shown);
    lemma_layout(s, shown);
    assert(offset(fs, 10) == 30);
    lemma_row(fs, 10, 0);
    lemma_row(fs, 10, 1);
    lemma_row(fs, 10, 2);
    lemma_row(fs, 10, 3);
    lemma_row(fs, 10, 4);
}

/// The endpoints, in two families of one line each: how many addresses an
/// endpoint has, and whether they come from an answer of this run.
pub proof fn law_endpoints_are_shown(s: StatusView, shown: ShownView, i: int)
    requires
        texts_on_one_line(s, shown),
        0 <= i < s.endpoints.len(),
    ensures
        ({
            let ls = pieces(families_text(families(s, shown)), '\n');
            let n = s.endpoints.len() as int;
            let e = s.endpoints[i];
            let label = "{name=\""@ + e.name + "\"}"@;
            &&& ls[35] == "# HELP "@ + "egress_resolver_endpoint_addresses"@ + " "@
                + "Addresses for an endpoint name."@
            &&& ls[36] == "# TYPE "@ + "egress_resolver_endpoint_addresses"@ + " gauge"@
            &&& ls[37 + i] == "egress_resolver_endpoint_addresses"@ + label + " "@ + numeral(
                e.addrs.len(),
            )
            &&& ls[37 + n] == "# HELP "@ + "egress_resolver_endpoint_fresh"@ + " "@
                + "1 if the endpoint's addresses come from a fresh authenticated answer."@
            &&& ls[38 + n] == "# TYPE "@ + "egress_resolver_endpoint_fresh"@ + " gauge"@
            &&& ls[39 + n + i] == "egress_resolver_endpoint_fresh"@ + label + " "@ + (
            if e.source == Source::Fresh || e.source == Source::Empty {
                "1"@
            } else {
                "0"@
            })
        }),
{
    let fs = families(s, shown);
    law_metrics_are_well_formed(s, shown);
    lemma_layout(s, shown);
    lemma_row(fs, 11, 0);
    lemma_row(fs, 11, 1);
    lemma_row(fs, 11, 2 + i);
    lemma_row(fs, 12, 0);
    lemma_row(fs, 12, 1);
    lemma_row(fs, 12, 2 + i);
}

/// The ages, one line per name that ever had a fresh answer, in ascending order
/// of name; and the text ends there.
pub proof fn law_ages_are_shown(s: StatusView, shown: ShownView, keys: Seq<Seq<char>>)
    requires
        texts_on_one_line(s, shown),
        lists_names(keys, s.last_fresh.dom()),
    ensures
        ({
            let ls = pieces(families_text(families(s, shown)), '\n');
            let at = 39 + 2 * s.endpoints.len() as int;
            &&& ls[at] == "# HELP "@ + "egress_resolver_endpoint_fresh_age_seconds"@ + " "@
                + "Seconds since the endpoint's installed addresses last came from a fresh answer (absent if never this boot)."@
            &&& ls[at + 1] == "# TYPE "@ + "egress_resolver_endpoint_fresh_age_seconds"@
                + " gauge"@
            &&& forall|i: int|
                0 <= i < keys.len() ==> ls[at + 2 + i] == "egress_resolver_endpoint_fresh_age_seconds"@
                    + ("{name=\""@ + #[trigger] keys[i] + "\"}"@) + " "@ + shown.ages[i]
            &&& ls.len() == at + 2 + keys.len() + 1
            &&& ls.last() == Seq::<char>::empty()
        }),
{
    let fs = families(s, shown);
    law_metrics_are_well_formed(s, shown);
    lemma_layout(s, shown);
    lemma_lists_names(keys, s.last_fresh.dom());
    let times = listed_times(s.last_fresh);
    assert(times.len() == keys.len());
    lemma_row(fs, 13, 0);
    lemma_row(fs, 13, 1);
    let ls = pieces(families_text(fs), '\n');
    let at = 39 + 2 * s.endpoints.len() as int;
    assert forall|i: int| 0 <= i < keys.len() implies ls[at + 2 + i]
        == "egress_resolver_endpoint_fresh_age_seconds"@ + ("{name=\""@ + #[trigger] keys[i]
        + "\"}"@) + " "@ + shown.ages[i] by {
        assert(times[i].0 == keys[i]);
        assert(fs[13].samples[i] == (name_label(keys[i]), shown.ages[i]));
        lemma_row(fs, 13, 2 + i);
    }
}

} // verus!
