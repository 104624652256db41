//! What every response amounts to, said of its header and its records alone.

use vstd::prelude::*;

use crate::accept::lemma_chain_insert;
use crate::addr::{addr_text, Ipv4Addr};
use crate::dns::{
    absolute, canonical, host_labels, rcode_name, same_name, DataView, DnsNameView, RecordView,
    ResponseView,
};
use crate::due::lemma_distinct_first;
use crate::number::numeral;
use crate::plan::distinct;
use crate::resolve::{
    alias_of, chain_end, classification, final_owner, first_special, gives_addr, owned,
    record_addrs, unrelated, ClassifiedView, MAX_CNAME_HOPS,
};
use crate::text::pieces;
use crate::validate::global_unicast;

verus! {

// ---------------------------------------------------------------------------
// Names
// ---------------------------------------------------------------------------

/// Two names are the same exactly if both are absolute or both are not, they
/// have as many labels, labels in the same place have as many bytes, and bytes
/// in the same place are equal or are the two cases of one ASCII letter.
pub proof fn law_same_name_up_to_case(a: DnsNameView, b: DnsNameView)
    ensures
        same_name(a, b) <==> {
            &&& a.fqdn == b.fqdn
            &&& a.labels.len() == b.labels.len()
            &&& forall|i: int|
                0 <= i < a.labels.len() ==> (#[trigger] a.labels[i]).len() == b.labels[i].len()
            &&& forall|i: int, j: int|
                0 <= i < a.labels.len() && 0 <= j < a.labels[i].len() ==> {
                    let (x, y) = (#[trigger] a.labels[i][j], b.labels[i][j]);
                    ||| x == y
                    ||| 65 <= x <= 90 && y == x + 32
                    ||| 65 <= y <= 90 && x == y + 32
                }
        },
{
    let (p, q) = (canonical(a), canonical(b));
    let alike = {
        &&& a.fqdn == b.fqdn
        &&& a.labels.len() == b.labels.len()
        &&& forall|i: int|
            0 <= i < a.labels.len() ==> (#[trigger] a.labels[i]).len() == b.labels[i].len()
        &&& forall|i: int, j: int|
            0 <= i < a.labels.len() && 0 <= j < a.labels[i].len() ==> {
                let (x, y) = (#[trigger] a.labels[i][j], b.labels[i][j]);
                ||| x == y
                ||| 65 <= x <= 90 && y == x + 32
                ||| 65 <= y <= 90 && x == y + 32
            }
    };
    if alike {
        assert forall|i: int| 0 <= i < p.labels.len() implies p.labels[i] == q.labels[i] by {
            assert(a.labels[i].len() == b.labels[i].len());
            assert forall|j: int| 0 <= j < p.labels[i].len() implies p.labels[i][j]
                == q.labels[i][j] by {
                let (x, y) = (a.labels[i][j], b.labels[i][j]);
                assert(x == y || 65 <= x <= 90 && y == x + 32 || 65 <= y <= 90 && x == y + 32);
            }
            assert(p.labels[i] =~= q.labels[i]);
        }
        assert(p.labels =~= q.labels);
    }
    if p == q {
        assert(p.labels.len() == a.labels.len() && q.labels.len() == b.labels.len());
        assert forall|i: int| 0 <= i < a.labels.len() implies (#[trigger] a.labels[i]).len()
            == b.labels[i].len() by {
            assert(p.labels[i].len() == q.labels[i].len());
        }
        assert forall|i: int, j: int| 0 <= i < a.labels.len() && 0 <= j < a.labels[i].len() implies ({
            let (x, y) = (#[trigger] a.labels[i][j], b.labels[i][j]);
            ||| x == y
            ||| 65 <= x <= 90 && y == x + 32
            ||| 65 <= y <= 90 && x == y + 32
        }) by {
            assert(a.labels[i].len() == b.labels[i].len());
            assert(p.labels[i][j] == q.labels[i][j]);
        }
    }
}

/// The labels that a hostname is asked for with: one for each piece between its
/// dots, one byte for each character.
pub proof fn law_labels_of_a_hostname(s: Seq<char>, k: int, i: int)
    ensures
        host_labels(s).len() == pieces(s, '.').len(),
        0 <= k < pieces(s, '.').len() ==> host_labels(s)[k].len() == pieces(s, '.')[k].len(),
        0 <= k < pieces(s, '.').len() && 0 <= i < pieces(s, '.')[k].len() && pieces(s, '.')[k][i]
            <= '\u{ff}' ==> host_labels(s)[k][i] as int == pieces(s, '.')[k][i] as int,
{
    if 0 <= k < pieces(s, '.').len() && 0 <= i < pieces(s, '.')[k].len() && pieces(s, '.')[k][i]
        <= '\u{ff}' {
        lemma_one_byte(pieces(s, '.')[k][i]);
    }
}

proof fn lemma_one_byte(c: char)
    requires
        c <= '\u{ff}',
    ensures
        (c as u8) as int == c as int,
{
}

/// How a response code is called: by its name, or by its number if it has none.
pub proof fn law_response_codes(code: u16)
    ensures
        rcode_name(1) == "FormErr"@,
        rcode_name(2) == "ServFail"@,
        rcode_name(4) == "NotImp"@,
        rcode_name(5) == "Refused"@,
        rcode_name(6) == "YXDomain"@,
        rcode_name(7) == "YXRRSet"@,
        rcode_name(8) == "NXRRSet"@,
        rcode_name(9) == "NotAuth"@,
        rcode_name(10) == "NotZone"@,
        11 <= code <= 15 || code > 23 ==> rcode_name(code) == "Unknown("@ + numeral(code as nat)
            + ")"@,
{
}

// ---------------------------------------------------------------------------
// The CNAME chain
// ---------------------------------------------------------------------------

/// Record `k` is the first CNAME record of `owner`.
pub open spec fn first_alias(answers: Seq<RecordView>, owner: DnsNameView, k: int) -> bool {
    &&& 0 <= k < answers.len()
    &&& answers[k].data is Cname
    &&& same_name(answers[k].name, owner)
    &&& forall|j: int|
        0 <= j < k ==> !((#[trigger] answers[j]).data is Cname && same_name(answers[j].name, owner))
}

/// `owner` is an alias of `target`: so says its first CNAME record.
pub open spec fn leads_to(
    answers: Seq<RecordView>,
    owner: DnsNameView,
    target: DnsNameView,
) -> bool {
    exists|k: int| #[trigger]
        first_alias(answers, owner, k) && target.fqdn && target.labels
            == answers[k].data->Cname_0.labels
}

/// `path` starts at the queried name, each name leads to the next one, and no
/// name occurs twice.
pub open spec fn is_path(
    answers: Seq<RecordView>,
    qname: DnsNameView,
    path: Seq<DnsNameView>,
) -> bool {
    &&& path.len() > 0
    &&& path[0].fqdn && path[0].labels == qname.labels
    &&& forall|i: int|
        0 < i < path.len() ==> leads_to(answers, path[i - 1], #[trigger] path[i])
    &&& forall|i: int, j: int|
        0 <= i < j < path.len() ==> !same_name(#[trigger] path[i], #[trigger] path[j])
}

proof fn lemma_first_alias(answers: Seq<RecordView>, owner: DnsNameView)
    ensures
        alias_of(answers, owner) is None ==> forall|k: int|
            0 <= k < answers.len() ==> !((#[trigger] answers[k]).data is Cname && same_name(
                answers[k].name,
                owner,
            )),
        alias_of(answers, owner) matches Some(t) ==> exists|k: int| #[trigger]
            first_alias(answers, owner, k) && answers[k].data == DataView::Cname(t),
    decreases answers.len(),
{
    if answers.len() > 0 {
        let d = answers.drop_last();
        let n = d.len() as int;
        lemma_first_alias(d, owner);
        match alias_of(d, owner) {
            Some(t) => {
                let k = choose|k: int| #[trigger]
                    first_alias(d, owner, k) && d[k].data == DataView::Cname(t);
                assert forall|j: int| 0 <= j < k implies !((#[trigger] answers[j]).data is Cname
                    && same_name(answers[j].name, owner)) by {
                    assert(d[j] == answers[j]);
                }
                assert(first_alias(answers, owner, k));
            },
            None => {
                assert forall|j: int| 0 <= j < n implies !((#[trigger] answers[j]).data is Cname
                    && same_name(answers[j].name, owner)) by {
                    assert(d[j] == answers[j]);
                }
                if alias_of(answers, owner) is Some {
                    assert(first_alias(answers, owner, n));
                }
            },
        }
    }
}

proof fn lemma_leads_to(answers: Seq<RecordView>, owner: DnsNameView, target: DnsNameView)
    ensures
        leads_to(answers, owner, target) <==> (alias_of(answers, owner) matches Some(t)
            && absolute(t) == target),
{
    lemma_first_alias(answers, owner);
    if leads_to(answers, owner, target) {
        let k = choose|k: int| #[trigger]
            first_alias(answers, owner, k) && target.fqdn && target.labels
                == answers[k].data->Cname_0.labels;
        match alias_of(answers, owner) {
            Some(t) => {
                let j = choose|j: int| #[trigger]
                    first_alias(answers, owner, j) && answers[j].data == DataView::Cname(t);
                assert(j == k);
                assert(absolute(t) == target);
            },
            None => {},
        }
    }
    match alias_of(answers, owner) {
        Some(t) => {
            let j = choose|j: int| #[trigger]
                first_alias(answers, owner, j) && answers[j].data == DataView::Cname(t);
            if absolute(t) == target {
                assert(first_alias(answers, owner, j));
            }
        },
        None => {},
    }
}

/// The canonical forms of the first `n` names.
spec fn forms(path: Seq<DnsNameView>, n: int) -> Set<DnsNameView> {
    Set::new(|c: DnsNameView| exists|i: int| 0 <= i < n && canonical(#[trigger] path[i]) == c)
}

proof fn lemma_walk(
    answers: Seq<RecordView>,
    qname: DnsNameView,
    path: Seq<DnsNameView>,
    i: int,
    hops: nat,
)
    requires
        is_path(answers, qname, path),
        0 <= i < path.len(),
        path.len() - 1 - i <= hops,
    ensures
        chain_end(answers, path[i], forms(path, i + 1), hops) == chain_end(
            answers,
            path.last(),
            forms(path, path.len() as int),
            (hops - (path.len() - 1 - i)) as nat,
        ),
    decreases path.len() - i,
{
    if i + 1 < path.len() {
        let t = path[i + 1];
        assert(leads_to(answers, path[i + 1 - 1], path[i + 1]));
        lemma_leads_to(answers, path[i], t);
        if forms(path, i + 1).contains(canonical(t)) {
            let j = choose|j: int| 0 <= j < i + 1 && canonical(#[trigger] path[j]) == canonical(t);
            assert(!same_name(path[j], path[i + 1]));
        }
        let (wide, narrow) = (forms(path, i + 2), forms(path, i + 1));
        assert(wide =~= narrow.insert(canonical(t))) by {
            assert forall|c: DnsNameView|
                wide.contains(c) <==> narrow.insert(canonical(t)).contains(c) by {
                if wide.contains(c) {
                    let j = choose|j: int| 0 <= j < i + 2 && canonical(#[trigger] path[j]) == c;
                    if j < i + 1 {
                        assert(narrow.contains(c));
                    }
                }
                if c == canonical(t) {
                    assert(canonical(path[i + 1]) == c);
                }
            }
        }
        lemma_walk(answers, qname, path, i + 1, (hops - 1) as nat);
    }
}

proof fn lemma_walk_start(answers: Seq<RecordView>, qname: DnsNameView, path: Seq<DnsNameView>)
    requires
        is_path(answers, qname, path),
        path.len() <= 9,
    ensures
        final_owner(answers, qname) == chain_end(
            answers,
            path.last(),
            forms(path, path.len() as int),
            (9 - path.len()) as nat,
        ),
{
    assert(path[0] == absolute(qname));
    assert(forms(path, 1) =~= set![canonical(path[0])]) by {
        assert forall|c: DnsNameView|
            forms(path, 1).contains(c) <==> set![canonical(path[0])].contains(c) by {
            if c == canonical(path[0]) {
                assert(canonical(path[0]) == c && 0 <= 0 < 1);
            }
        }
    }
    lemma_walk(answers, qname, path, 0, MAX_CNAME_HOPS as nat);
}

/// Whose addresses count: the name at the end of the path from the queried
/// name, where the path ends at a name that is no alias, or after eight steps.
pub proof fn law_path_leads_to_the_owner(
    answers: Seq<RecordView>,
    qname: DnsNameView,
    path: Seq<DnsNameView>,
)
    requires
        is_path(answers, qname, path),
        path.len() <= 9,
        path.len() == 9 || forall|t: DnsNameView| !leads_to(answers, path.last(), t),
    ensures
        final_owner(answers, qname) == Some(path.last()),
{
    lemma_walk_start(answers, qname, path);
    match alias_of(answers, path.last()) {
        Some(t) => {
            lemma_leads_to(answers, path.last(), absolute(t));
        },
        None => {},
    }
}

/// A path of at most eight names whose last one leads back to a name of the
/// path is a loop: nothing is accepted, and asking again would not help.
pub proof fn law_loop_is_refused(
    msg: ResponseView,
    qname: DnsNameView,
    require_authenticated: bool,
    path: Seq<DnsNameView>,
    i: int,
    back: DnsNameView,
)
    requires
        is_path(msg.answers, qname, path),
        path.len() <= 8,
        0 <= i < path.len(),
        same_name(path[i], back),
        leads_to(msg.answers, path.last(), back),
        !msg.truncated,
        msg.rcode == 0,
        require_authenticated ==> msg.authentic,
    ensures
        classification(msg, qname, require_authenticated) == (ClassifiedView::Transient {
            reason: "CNAME loop in answer"@,
            retry: false,
        }),
{
    lemma_walk_start(msg.answers, qname, path);
    lemma_leads_to(msg.answers, path.last(), back);
    assert(forms(path, path.len() as int).contains(canonical(back))) by {
        assert(canonical(path[i]) == canonical(back));
    }
}

/// There always is such a path: every response either has an owner whose
/// addresses count or a loop.
pub proof fn law_path_exists(answers: Seq<RecordView>, qname: DnsNameView) -> (path: Seq<
    DnsNameView,
>)
    ensures
        is_path(answers, qname, path),
        path.len() <= 9,
        path.len() == 9 || (forall|t: DnsNameView| !leads_to(answers, path.last(), t)) || exists|
            i: int,
            back: DnsNameView,
        |
            0 <= i < path.len() && same_name(#[trigger] path[i], back) && #[trigger] leads_to(
                answers,
                path.last(),
                back,
            ),
{
    lemma_extend(answers, qname, seq![absolute(qname)])
}

proof fn lemma_extend(
    answers: Seq<RecordView>,
    qname: DnsNameView,
    path: Seq<DnsNameView>,
) -> (longer: Seq<DnsNameView>)
    requires
        is_path(answers, qname, path),
        path.len() <= 9,
    ensures
        is_path(answers, qname, longer),
        longer.len() <= 9,
        longer.len() == 9 || (forall|t: DnsNameView| !leads_to(answers, longer.last(), t)) || exists|
            i: int,
            back: DnsNameView,
        |
            0 <= i < longer.len() && same_name(#[trigger] longer[i], back) && #[trigger] leads_to(
                answers,
                longer.last(),
                back,
            ),
    decreases 9 - path.len(),
{
    if path.len() == 9 || (forall|t: DnsNameView| !leads_to(answers, path.last(), t)) {
        path
    } else {
        let t = choose|t: DnsNameView| leads_to(answers, path.last(), t);
        if exists|i: int| 0 <= i < path.len() && same_name(#[trigger] path[i], t) {
            path
        } else {
            let more = path.push(t);
            assert forall|i: int| 0 < i < more.len() implies leads_to(
                answers,
                more[i - 1],
                #[trigger] more[i],
            ) by {
                if i < path.len() {
                    assert(leads_to(answers, path[i - 1], path[i]));
                }
            }
            lemma_extend(answers, qname, more)
        }
    }
}

// ---------------------------------------------------------------------------
// The header
// ---------------------------------------------------------------------------

/// What the header decides, before any record is looked at: a truncated
/// response and a response code other than `NOERROR` and `NXDOMAIN` may be
/// asked for again; where authentication is required and missing, asking again
/// does not help; an authenticated `NXDOMAIN` is a negative answer.
pub proof fn law_header_decides(
    msg: ResponseView,
    qname: DnsNameView,
    require_authenticated: bool,
)
    ensures
        ({
            let c = classification(msg, qname, require_authenticated);
            let trusted = msg.authentic || !require_authenticated;
            &&& msg.truncated ==> c == (ClassifiedView::Transient {
                reason: "truncated response"@,
                retry: true,
            })
            &&& !msg.truncated && msg.rcode != 0 && msg.rcode != 3 ==> c == (
            ClassifiedView::Transient { reason: "rcode "@ + rcode_name(msg.rcode), retry: true })
            &&& !msg.truncated && msg.rcode == 3 && trusted ==> c == ClassifiedView::Empty(
                "NXDOMAIN"@,
            )
            &&& !msg.truncated && msg.rcode == 3 && !trusted ==> c == (ClassifiedView::Transient {
                reason: "NXDOMAIN without AD bit"@,
                retry: false,
            })
            &&& !msg.truncated && msg.rcode == 0 && !trusted ==> c == (ClassifiedView::Transient {
                reason: "answer not authenticated (AD bit missing)"@,
                retry: false,
            })
        }),
{
}

// ---------------------------------------------------------------------------
// The records
// ---------------------------------------------------------------------------

/// Record `k` gives `ip` to `owner`.
pub open spec fn gives(answers: Seq<RecordView>, owner: DnsNameView, k: int, ip: Ipv4Addr) -> bool {
    &&& 0 <= k < answers.len()
    &&& answers[k].data == DataView::A(ip)
    &&& same_name(answers[k].name, owner)
}

/// What a complete response without error, authenticated if that is required,
/// says about the name at the end of the path. With at least one address, all
/// of them global unicast, it is accepted; with a non-global one it fails; with
/// addresses of other names only it fails; with no address at all it is a
/// negative answer. Records of any other kind make no difference.
pub proof fn law_every_answer_has_its_verdict(
    msg: ResponseView,
    qname: DnsNameView,
    require_authenticated: bool,
    path: Seq<DnsNameView>,
)
    requires
        !msg.truncated,
        msg.rcode == 0,
        require_authenticated ==> msg.authentic,
        is_path(msg.answers, qname, path),
        path.len() <= 9,
        path.len() == 9 || forall|t: DnsNameView| !leads_to(msg.answers, path.last(), t),
    ensures
        ({
            let c = classification(msg, qname, require_authenticated);
            let owner = path.last();
            let some = exists|k: int, ip: Ipv4Addr| #[trigger] gives(msg.answers, owner, k, ip);
            let bad = exists|k: int, ip: Ipv4Addr| #[trigger]
                gives(msg.answers, owner, k, ip) && !global_unicast(ip);
            let stray = exists|k: int|
                0 <= k < msg.answers.len() && (#[trigger] msg.answers[k]).data is A;
            &&& c is Resolved <==> some && !bad
            &&& c is Empty <==> !some && !stray
            &&& c is Empty ==> c->Empty_0 == "NODATA (no A records)"@
            &&& c is Transient <==> bad || (!some && stray)
            &&& c is Transient ==> !c->retry
        }),
{
    let owner = path.last();
    law_path_leads_to_the_owner(msg.answers, qname, path);
    let p = |r: RecordView| gives_addr(r, owner);
    let u = |r: RecordView| r.data is A && !same_name(r.name, owner);
    let records = owned(msg.answers, owner);
    let all = record_addrs(records);
    lemma_special(all);
    lemma_distinct_some(all);
    if all.len() > 0 {
        let j = if first_special(all) is Some {
            choose|j: int|
                0 <= j < all.len() && all[j] == first_special(all)->0 && !global_unicast(all[j])
        } else {
            0
        };
        let k = lemma_owned_source(msg.answers, owner, j);
        assert(gives(msg.answers, owner, k, all[j]));
    }
    assert forall|k: int, ip: Ipv4Addr| #[trigger] gives(msg.answers, owner, k, ip) implies exists|
        j: int,
    | 0 <= j < all.len() && #[trigger] all[j] == ip by {
        assert(p(msg.answers[k]));
        msg.answers.lemma_filter_contains(p, k);
        let j = choose|j: int| 0 <= j < records.len() && records[j] == msg.answers[k];
        assert(all[j] == ip);
    }
    let strays = msg.answers.filter(u);
    if strays.len() > 0 {
        msg.answers.lemma_filter_pred(u, 0);
        assert(strays.contains(strays[0]));
        msg.answers.lemma_filter_contains_rev(u, strays[0]);
        let k = choose|k: int| 0 <= k < msg.answers.len() && msg.answers[k] == strays[0];
        assert(msg.answers[k].data is A);
    }
    assert forall|k: int| 0 <= k < msg.answers.len() && (#[trigger] msg.answers[k]).data is A implies
        strays.len() > 0 || all.len() > 0 by {
        if same_name(msg.answers[k].name, owner) {
            assert(p(msg.answers[k]));
            msg.answers.lemma_filter_contains(p, k);
        } else {
            assert(u(msg.answers[k]));
            msg.answers.lemma_filter_contains(u, k);
        }
    }
}

/// What a failed answer tells: the first non-global address in it, or how many
/// addresses of other names it has.
pub proof fn law_failed_answer_tells_why(
    msg: ResponseView,
    qname: DnsNameView,
    require_authenticated: bool,
    owner: DnsNameView,
    k: int,
    ip: Ipv4Addr,
)
    requires
        !msg.truncated,
        msg.rcode == 0,
        require_authenticated ==> msg.authentic,
        final_owner(msg.answers, qname) == Some(owner),
    ensures
        gives(msg.answers, owner, k, ip) && !global_unicast(ip) && (forall|j: int, x: Ipv4Addr|
            j < k && #[trigger] gives(msg.answers, owner, j, x) ==> global_unicast(x))
            ==> classification(msg, qname, require_authenticated) == (ClassifiedView::Transient {
            reason: "answer contains non-global address "@ + addr_text(ip),
            retry: false,
        }),
        (forall|j: int, x: Ipv4Addr| !#[trigger] gives(msg.answers, owner, j, x)) && (exists|j: int|
            0 <= j < msg.answers.len() && (#[trigger] msg.answers[j]).data is A)
            ==> classification(msg, qname, require_authenticated) == (ClassifiedView::Transient {
            reason: "answer has "@ + numeral(msg.answers.filter(|r: RecordView| r.data is A).len())
                + " A record(s) but none for the queried name"@,
            retry: false,
        }),
{
    let p = |r: RecordView| gives_addr(r, owner);
    let u = |r: RecordView| r.data is A && !same_name(r.name, owner);
    let a = |r: RecordView| r.data is A;
    let records = owned(msg.answers, owner);
    let all = record_addrs(records);
    if gives(msg.answers, owner, k, ip) && !global_unicast(ip) && (forall|j: int, x: Ipv4Addr|
        j < k && #[trigger] gives(msg.answers, owner, j, x) ==> global_unicast(x)) {
        lemma_first_bad(msg.answers, owner, k, ip);
    }
    if forall|j: int, x: Ipv4Addr| !#[trigger] gives(msg.answers, owner, j, x) {
        lemma_special(all);
        if all.len() > 0 {
            let j = lemma_owned_source(msg.answers, owner, 0);
            assert(gives(msg.answers, owner, j, all[0]));
        }
        assert forall|j: int| 0 <= j < msg.answers.len() implies u(msg.answers[j]) == a(
            msg.answers[j],
        ) by {
            if a(msg.answers[j]) && same_name(msg.answers[j].name, owner) {
                assert(gives(msg.answers, owner, j, msg.answers[j].data->A_0));
            }
        }
        lemma_same_filter(msg.answers, u, a);
        if exists|j: int| 0 <= j < msg.answers.len() && (#[trigger] msg.answers[j]).data is A {
            let j = choose|j: int|
                0 <= j < msg.answers.len() && (#[trigger] msg.answers[j]).data is A;
            assert(a(msg.answers[j]));
            msg.answers.lemma_filter_contains(a, j);
        }
        assert(unrelated(msg.answers, owner) == msg.answers.filter(a).len());
    }
}

/// The addresses of an accepted answer stand in the order of the records that
/// first give them.
pub proof fn law_accepted_addresses_are_in_order(
    msg: ResponseView,
    qname: DnsNameView,
    require_authenticated: bool,
    owner: DnsNameView,
    addrs: Seq<Ipv4Addr>,
    min_ttl: u32,
    a: int,
    b: int,
)
    requires
        final_owner(msg.answers, qname) == Some(owner),
        classification(msg, qname, require_authenticated) == (ClassifiedView::Resolved {
            addrs,
            min_ttl,
        }),
        0 <= a < b < addrs.len(),
    ensures
        exists|k: int| #[trigger]
            gives(msg.answers, owner, k, addrs[a]) && forall|j: int|
                j < k ==> !#[trigger] gives(msg.answers, owner, j, addrs[b]),
{
    let all = record_addrs(owned(msg.answers, owner));
    let p = lemma_distinct_first(all, a, b);
    lemma_first_source(msg.answers, owner, p, addrs[b]);
}

/// A record that is neither an address nor an alias, put anywhere into the
/// answer section, never changes what a response amounts to.
pub proof fn law_other_records_do_not_matter(
    msg: ResponseView,
    qname: DnsNameView,
    require_authenticated: bool,
    k: int,
    r: RecordView,
)
    requires
        0 <= k <= msg.answers.len(),
        r.data is Other,
    ensures
        classification(
            (ResponseView { answers: msg.answers.insert(k, r), ..msg }),
            qname,
            require_authenticated,
        ) == classification(msg, qname, require_authenticated),
{
    let more = msg.answers.insert(k, r);
    let start = absolute(qname);
    lemma_chain_insert(msg.answers, k, r, start, set![canonical(start)], MAX_CNAME_HOPS as nat);
    assert(final_owner(more, qname) == final_owner(msg.answers, qname));
    match final_owner(msg.answers, qname) {
        Some(owner) => {
            let p = |x: RecordView| gives_addr(x, owner);
            let u = |x: RecordView| x.data is A && !same_name(x.name, owner);
            lemma_filter_insert(msg.answers, k, r, p);
            lemma_filter_insert(msg.answers, k, r, u);
            assert(owned(more, owner) == owned(msg.answers, owner));
            assert(unrelated(more, owner) == unrelated(msg.answers, owner));
        },
        None => {},
    }
}

// ---------------------------------------------------------------------------
// Lemmas
// ---------------------------------------------------------------------------

proof fn lemma_special(addrs: Seq<Ipv4Addr>)
    ensures
        first_special(addrs) is None ==> forall|i: int|
            0 <= i < addrs.len() ==> global_unicast(#[trigger] addrs[i]),
        first_special(addrs) matches Some(ip) ==> exists|i: int|
            0 <= i < addrs.len() && #[trigger] addrs[i] == ip && !global_unicast(ip) && forall|j: int|
                0 <= j < i ==> global_unicast(#[trigger] addrs[j]),
    decreases addrs.len(),
{
    if addrs.len() > 0 {
        let d = addrs.drop_last();
        lemma_special(d);
        match first_special(d) {
            Some(ip) => {
                let i = choose|i: int|
                    0 <= i < d.len() && #[trigger] d[i] == ip && !global_unicast(ip) && forall|
                        j: int,
                    | 0 <= j < i ==> global_unicast(#[trigger] d[j]);
                assert(addrs[i] == ip);
                assert forall|j: int| 0 <= j < i implies global_unicast(#[trigger] addrs[j]) by {
                    assert(d[j] == addrs[j]);
                }
            },
            None => {
                assert forall|j: int| 0 <= j < d.len() implies global_unicast(
                    #[trigger] addrs[j],
                ) by {
                    assert(d[j] == addrs[j]);
                }
                assert(addrs[d.len() as int] == addrs.last());
            },
        }
    }
}

proof fn lemma_distinct_some(s: Seq<Ipv4Addr>)
    ensures
        s.len() > 0 ==> distinct(s).len() > 0,
    decreases s.len(),
{
    if s.len() > 0 {
        lemma_distinct_some(s.drop_last());
    }
}

/// The record behind an owned address.
proof fn lemma_owned_source(answers: Seq<RecordView>, owner: DnsNameView, j: int) -> (k: int)
    requires
        0 <= j < owned(answers, owner).len(),
    ensures
        gives(answers, owner, k, record_addrs(owned(answers, owner))[j]),
{
    let p = |r: RecordView| gives_addr(r, owner);
    let records = owned(answers, owner);
    answers.lemma_filter_pred(p, j);
    assert(records.contains(records[j]));
    answers.lemma_filter_contains_rev(p, records[j]);
    choose|k: int| 0 <= k < answers.len() && answers[k] == records[j]
}

/// The first record with a non-global address gives the first special one.
proof fn lemma_first_bad(answers: Seq<RecordView>, owner: DnsNameView, k: int, ip: Ipv4Addr)
    requires
        gives(answers, owner, k, ip),
        !global_unicast(ip),
        forall|j: int, x: Ipv4Addr|
            j < k && #[trigger] gives(answers, owner, j, x) ==> global_unicast(x),
    ensures
        first_special(record_addrs(owned(answers, owner))) == Some(ip),
    decreases answers.len(),
{
    let p = |r: RecordView| gives_addr(r, owner);
    let d = answers.drop_last();
    let last = answers.last();
    assert(answers =~= d.push(last));
    d.lemma_filter_push(last, p);
    let part = record_addrs(owned(d, owner));
    let all = record_addrs(owned(answers, owner));
    if k < d.len() {
        assert(gives(d, owner, k, ip));
        assert forall|j: int, x: Ipv4Addr| j < k && #[trigger] gives(d, owner, j, x) implies
            global_unicast(x) by {
            assert(gives(answers, owner, j, x));
        }
        lemma_first_bad(d, owner, k, ip);
        if p(last) {
            assert(all.drop_last() =~= part);
        }
    } else {
        assert(p(last));
        assert(all.drop_last() =~= part);
        assert(all.last() == ip);
        lemma_special(part);
        if first_special(part) is Some {
            let j = choose|j: int|
                0 <= j < part.len() && part[j] == first_special(part)->0 && !global_unicast(part[j]);
            let q = lemma_owned_source(d, owner, j);
            assert(gives(answers, owner, q, part[j]));
        }
    }
}

/// The record that gives owned address `p` comes before every record that
/// gives `x`, if no earlier owned address is `x`.
proof fn lemma_first_source(answers: Seq<RecordView>, owner: DnsNameView, p: int, x: Ipv4Addr)
    requires
        0 <= p < owned(answers, owner).len(),
        !record_addrs(owned(answers, owner)).take(p).contains(x),
    ensures
        exists|k: int| #[trigger]
            gives(answers, owner, k, record_addrs(owned(answers, owner))[p]) && forall|j: int|
                j < k ==> !#[trigger] gives(answers, owner, j, x),
    decreases answers.len(),
{
    let f = |r: RecordView| gives_addr(r, owner);
    if answers.len() == 0 {
        reveal(Seq::filter);
        assert(owned(answers, owner).len() == 0);
    } else {
        let d = answers.drop_last();
        let last = answers.last();
        assert(answers =~= d.push(last));
        d.lemma_filter_push(last, f);
        let part = record_addrs(owned(d, owner));
        let all = record_addrs(owned(answers, owner));
        if p < part.len() {
            assert(all.take(p) =~= part.take(p));
            assert(all[p] == part[p]);
            lemma_first_source(d, owner, p, x);
            let k = choose|k: int| #[trigger]
                gives(d, owner, k, part[p]) && forall|j: int|
                    j < k ==> !#[trigger] gives(d, owner, j, x);
            assert(gives(answers, owner, k, all[p]));
            assert forall|j: int| j < k implies !#[trigger] gives(answers, owner, j, x) by {
                if gives(answers, owner, j, x) {
                    assert(gives(d, owner, j, x));
                }
            }
        } else {
            let k = d.len() as int;
            assert(gives(answers, owner, k, all[p]));
            assert(all.take(p) =~= part);
            assert forall|j: int| j < k implies !#[trigger] gives(answers, owner, j, x) by {
                if gives(answers, owner, j, x) {
                    assert(f(d[j]));
                    d.lemma_filter_contains(f, j);
                    let records = owned(d, owner);
                    let q = choose|q: int| 0 <= q < records.len() && records[q] == d[j];
                    assert(part[q] == x);
                }
            }
        }
    }
}

proof fn lemma_same_filter(
    s: Seq<RecordView>,
    p: spec_fn(RecordView) -> bool,
    q: spec_fn(RecordView) -> bool,
)
    requires
        forall|j: int| 0 <= j < s.len() ==> p(#[trigger] s[j]) == q(s[j]),
    ensures
        s.filter(p) == s.filter(q),
    decreases s.len(),
{
    reveal(Seq::filter);
    if s.len() > 0 {
        let d = s.drop_last();
        assert forall|j: int| 0 <= j < d.len() implies p(#[trigger] d[j]) == q(d[j]) by {
            assert(d[j] == s[j]);
        }
        lemma_same_filter(d, p, q);
        assert(s[s.len() - 1] == s.last());
    }
}

proof fn lemma_filter_insert(
    s: Seq<RecordView>,
    k: int,
    r: RecordView,
    p: spec_fn(RecordView) -> bool,
)
    requires
        0 <= k <= s.len(),
        !p(r),
    ensures
        s.insert(k, r).filter(p) == s.filter(p),
{
    let (a, b) = (s.take(k), s.skip(k));
    assert(s =~= a + b);
    assert(s.insert(k, r) =~= a + seq![r] + b);
    Seq::filter_distributes_over_add(a, b, p);
    Seq::filter_distributes_over_add(a + seq![r], b, p);
    assert(a.push(r) =~= a + seq![r]);
    a.lemma_filter_push(r, p);
}

} // verus!
