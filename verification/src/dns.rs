//! The parts of DNS messages that matter here: names, records, responses.

use vstd::prelude::*;
use crate::addr::Ipv4Addr;
use crate::config::valid_hostname;
use crate::number::numeral;
use crate::text::pieces;

verus! {

// ---------------------------------------------------------------------------
// Names
// ---------------------------------------------------------------------------

/// A domain name: its labels, the most specific first, and whether it is
/// absolute.
#[derive(Debug, PartialEq, Eq)]
pub struct DnsName {
    pub labels: Vec<Vec<u8>>,
    pub fqdn: bool,
}

/// The contents of a [`DnsName`].
pub struct DnsNameView {
    pub labels: Seq<Seq<u8>>,
    pub fqdn: bool,
}

/// The contents of a list of labels.
pub open spec fn labels_of(v: Seq<Vec<u8>>) -> Seq<Seq<u8>> {
    v.map_values(|l: Vec<u8>| l@)
}

impl View for DnsName {
    type V = DnsNameView;

    open spec fn view(&self) -> DnsNameView {
        DnsNameView { labels: labels_of(self.labels@), fqdn: self.fqdn }
    }
}

/// The lower-case form of an ASCII letter; every other byte is its own.
pub open spec fn lower_byte(b: u8) -> u8 {
    if 65 <= b <= 90 {
        (b + 32) as u8
    } else {
        b
    }
}

/// A label in lower case.
pub open spec fn lower_label(l: Seq<u8>) -> Seq<u8> {
    l.map_values(|b: u8| lower_byte(b))
}

/// The name in lower case.
pub open spec fn canonical(n: DnsNameView) -> DnsNameView {
    DnsNameView { labels: n.labels.map_values(|l: Seq<u8>| lower_label(l)), fqdn: n.fqdn }
}

/// The same name, whatever the case of its letters.
pub open spec fn same_name(a: DnsNameView, b: DnsNameView) -> bool {
    canonical(a) == canonical(b)
}

/// The name as an absolute one.
pub open spec fn absolute(n: DnsNameView) -> DnsNameView {
    DnsNameView { labels: n.labels, fqdn: true }
}

fn lowered_byte(b: u8) -> (r: u8)
    ensures
        r == lower_byte(b),
{
    if 65 <= b && b <= 90 {
        b + 32
    } else {
        b
    }
}

fn same_label(a: &Vec<u8>, b: &Vec<u8>) -> (r: bool)
    ensures
        r == (lower_label(a@) == lower_label(b@)),
{
    if a.len() != b.len() {
        assert(lower_label(a@).len() != lower_label(b@).len());
        return false;
    }
    let mut i: usize = 0;
    while i < a.len()
        invariant
            i <= a@.len() == b@.len(),
            forall|k: int| 0 <= k < i ==> lower_byte(#[trigger] a@[k]) == lower_byte(b@[k]),
        decreases a@.len() - i,
    {
        if lowered_byte(a[i]) != lowered_byte(b[i]) {
            assert(lower_label(a@)[i as int] != lower_label(b@)[i as int]);
            return false;
        }
        i += 1;
    }
    assert(lower_label(a@) =~= lower_label(b@));
    true
}

impl DnsName {
    /// Whether both are the same name, whatever the case of their letters.
    pub fn same(&self, other: &DnsName) -> (r: bool)
        ensures
            r == same_name(self@, other@),
    {
        if self.fqdn != other.fqdn {
            assert(canonical(self@).fqdn != canonical(other@).fqdn);
            return false;
        }
        let ghost a = canonical(self@).labels;
        let ghost b = canonical(other@).labels;
        if self.labels.len() != other.labels.len() {
            assert(a.len() != b.len());
            return false;
        }
        let mut i: usize = 0;
        while i < self.labels.len()
            invariant
                i <= self.labels@.len() == other.labels@.len(),
                a == canonical(self@).labels,
                b == canonical(other@).labels,
                forall|k: int| 0 <= k < i ==> a[k] == b[k],
            decreases self.labels@.len() - i,
        {
            assert(a[i as int] == lower_label(self.labels@[i as int]@));
            assert(b[i as int] == lower_label(other.labels@[i as int]@));
            if !same_label(&self.labels[i], &other.labels[i]) {
                return false;
            }
            i += 1;
        }
        assert(a =~= b);
        true
    }

    /// The name as an absolute one.
    pub fn to_absolute(&self) -> (r: DnsName)
        ensures
            r@ == absolute(self@),
    {
        let mut labels: Vec<Vec<u8>> = Vec::new();
        let ghost all = labels_of(self.labels@);
        let mut i: usize = 0;
        while i < self.labels.len()
            invariant
                i <= self.labels@.len(),
                all == labels_of(self.labels@),
                labels_of(labels@) == all.take(i as int),
            decreases self.labels@.len() - i,
        {
            let l = copy_label(&self.labels[i]);
            assert(all.take(i + 1) == all.take(i as int).push(l@));
            labels.push(l);
            assert(labels_of(labels@) =~= all.take(i + 1));
            i += 1;
        }
        assert(all.take(i as int) =~= all);
        DnsName { labels, fqdn: true }
    }
}

fn copy_label(l: &Vec<u8>) -> (r: Vec<u8>)
    ensures
        r@ == l@,
{
    let mut out: Vec<u8> = Vec::new();
    let mut i: usize = 0;
    while i < l.len()
        invariant
            i <= l@.len(),
            out@ == l@.take(i as int),
        decreases l@.len() - i,
    {
        out.push(l[i]);
        i += 1;
    }
    out
}

/// The contents of what a parse of a name gives: the name, or why there is
/// none.
pub open spec fn parsed_name(r: Result<DnsName, String>) -> Result<DnsNameView, Seq<char>> {
    match r {
        Ok(n) => Ok(n@),
        Err(e) => Err(e@),
    }
}

/// What `Name::from_ascii` makes of a text.
pub uninterp spec fn ascii_form(s: Seq<char>) -> Result<DnsNameView, Seq<char>>;

/// The labels of a hostname: the bytes of the pieces between its dots.
pub open spec fn host_labels(s: Seq<char>) -> Seq<Seq<u8>> {
    pieces(s, '.').map_values(|p: Seq<char>| p.map_values(|c: char| c as u8))
}

/// `hickory_net::proto::rr::Name::from_ascii`: the labels and the absoluteness
/// of the name it parses, or the text of its error. Both are a function of
/// `s`. A hostname is always accepted; its labels are the pieces between its
/// dots and it is relative. What other texts give (escapes, a trailing dot,
/// underscores) is not stated.
#[verifier::external_body]
pub(crate) fn name_from_ascii(s: &str) -> (r: Result<DnsName, String>)
    ensures
        parsed_name(r) == ascii_form(s@),
        valid_hostname(s@) ==> r is Ok && r->Ok_0@.labels == host_labels(s@) && !r->Ok_0.fqdn,
{
    match hickory_net::proto::rr::Name::from_ascii(s) {
        Ok(n) => Ok(DnsName { labels: n.iter().map(|l| l.to_vec()).collect(), fqdn: n.is_fqdn() }),
        Err(e) => Err(e.to_string()),
    }
}

// ---------------------------------------------------------------------------
// Response codes
// ---------------------------------------------------------------------------

/// No error.
pub const NO_ERROR: u16 = 0;

/// The name does not exist.
pub const NX_DOMAIN: u16 = 3;

/// The name of a response code.
pub open spec fn rcode_name(code: u16) -> Seq<char> {
    match code {
        0 => "NoError"@,
        1 => "FormErr"@,
        2 => "ServFail"@,
        3 => "NXDomain"@,
        4 => "NotImp"@,
        5 => "Refused"@,
        6 => "YXDomain"@,
        7 => "YXRRSet"@,
        8 => "NXRRSet"@,
        9 => "NotAuth"@,
        10 => "NotZone"@,
        16 => "BADSIG"@,
        17 => "BADKEY"@,
        18 => "BADTIME"@,
        19 => "BADMODE"@,
        20 => "BADNAME"@,
        21 => "BADALG"@,
        22 => "BADTRUNC"@,
        23 => "BADCOOKIE"@,
        _ => "Unknown("@ + numeral(code as nat) + ")"@,
    }
}

/// `hickory_net::proto::op::ResponseCode`: the `Debug` form of the code that
/// the number converts to, which is the name of its variant, with the number
/// in brackets for `Unknown`.
#[verifier::external_body]
pub(crate) fn rcode_text(code: u16) -> (r: String)
    ensures
        r@ == rcode_name(code),
{
    let rcode: hickory_net::proto::op::ResponseCode = code.into();
    format!("{rcode:?}")
}

// ---------------------------------------------------------------------------
// Records and responses
// ---------------------------------------------------------------------------

/// What a record says.
#[derive(Debug, PartialEq, Eq)]
pub enum RecordData {
    /// An address.
    A(Ipv4Addr),
    /// Another name to look at.
    Cname(DnsName),
    /// Anything else.
    Other,
}

/// A resource record.
#[derive(Debug, PartialEq, Eq)]
pub struct Record {
    pub name: DnsName,
    pub ttl: u32,
    pub data: RecordData,
}

/// The contents of a [`RecordData`].
pub enum DataView {
    A(Ipv4Addr),
    Cname(DnsNameView),
    Other,
}

/// The contents of a [`Record`].
pub struct RecordView {
    pub name: DnsNameView,
    pub ttl: u32,
    pub data: DataView,
}

impl View for RecordData {
    type V = DataView;

    open spec fn view(&self) -> DataView {
        match self {
            RecordData::A(ip) => DataView::A(*ip),
            RecordData::Cname(n) => DataView::Cname(n@),
            RecordData::Other => DataView::Other,
        }
    }
}

impl View for Record {
    type V = RecordView;

    open spec fn view(&self) -> RecordView {
        RecordView { name: self.name@, ttl: self.ttl, data: self.data@ }
    }
}

/// The contents of a list of records.
pub open spec fn records_of(v: Seq<Record>) -> Seq<RecordView> {
    v.map_values(|r: Record| r@)
}

/// A response: the flags and the code of its header, and its answer section.
#[derive(Debug, PartialEq, Eq)]
pub struct Response {
    pub truncated: bool,
    /// The AD bit: the resolver has validated the data.
    pub authentic: bool,
    pub rcode: u16,
    pub answers: Vec<Record>,
}

/// The contents of a [`Response`].
pub struct ResponseView {
    pub truncated: bool,
    pub authentic: bool,
    pub rcode: u16,
    pub answers: Seq<RecordView>,
}

impl View for Response {
    type V = ResponseView;

    open spec fn view(&self) -> ResponseView {
        ResponseView {
            truncated: self.truncated,
            authentic: self.authentic,
            rcode: self.rcode,
            answers: records_of(self.answers@),
        }
    }
}

} // verus!
