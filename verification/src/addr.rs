//! IPv4 addresses and their dotted-decimal text.

use vstd::prelude::*;

use crate::number::{
    all_digits, digits_value, is_digit, lemma_numeral_digits, lemma_numeral_value, numeral,
    push_number,
};
use crate::text::{chars, equals, joined, lemma_cut_joined, pieces, split, texts};

verus! {

/// An IPv4 address; `bits` holds its four octets, the first one highest.
#[derive(Clone, Copy, Debug, PartialEq, Eq, Structural, PartialOrd, Ord, Hash)]
pub struct Ipv4Addr {
    pub bits: u32,
}

/// Octet `k` of an address, counted from the left.
pub open spec fn octet(a: Ipv4Addr, k: int) -> nat {
    if k == 0 {
        a.bits as nat / 0x100_0000
    } else if k == 1 {
        a.bits as nat / 0x1_0000 % 0x100
    } else if k == 2 {
        a.bits as nat / 0x100 % 0x100
    } else {
        a.bits as nat % 0x100
    }
}

/// The numerals of the four octets.
pub open spec fn octet_texts(a: Ipv4Addr) -> Seq<Seq<char>> {
    seq![numeral(octet(a, 0)), numeral(octet(a, 1)), numeral(octet(a, 2)), numeral(octet(a, 3))]
}

/// Dotted-decimal text: the octets' numerals with dots between them.
pub open spec fn addr_text(a: Ipv4Addr) -> Seq<char> {
    joined(octet_texts(a), seq!['.'])
}

/// The texts of a list of addresses.
pub open spec fn addr_texts(v: Seq<Ipv4Addr>) -> Seq<Seq<char>> {
    v.map_values(|a: Ipv4Addr| addr_text(a))
}

/// The value of one octet's text: up to three digits, no superfluous leading
/// zero, at most 255.
pub open spec fn octet_value(s: Seq<char>) -> Option<nat> {
    if 1 <= s.len() <= 3 && all_digits(s) && (s.len() == 1 || s[0] != '0') && digits_value(s)
        <= 255 {
        Some(digits_value(s))
    } else {
        None
    }
}

/// The address that a text denotes: four octets with dots between them.
pub open spec fn addr_value(s: Seq<char>) -> Option<Ipv4Addr> {
    let p = pieces(s, '.');
    if p.len() == 4 && octet_value(p[0]) is Some && octet_value(p[1]) is Some && octet_value(p[2])
        is Some && octet_value(p[3]) is Some {
        Some(
            Ipv4Addr {
                bits: (octet_value(p[0])->0 * 0x100_0000 + octet_value(p[1])->0 * 0x1_0000
                    + octet_value(p[2])->0 * 0x100 + octet_value(p[3])->0) as u32,
            },
        )
    } else {
        None
    }
}

/// The text of an octet reads back as that octet.
proof fn lemma_octet_round_trip(n: nat)
    requires
        n <= 255,
    ensures
        octet_value(numeral(n)) == Some(n),
        numeral(n).len() > 0,
        forall|i: int| 0 <= i < numeral(n).len() ==> #[trigger] numeral(n)[i] != '.',
{
    lemma_numeral_digits(n);
    lemma_numeral_value(n);
    reveal_with_fuel(numeral, 4);
    assert forall|i: int| 0 <= i < numeral(n).len() implies #[trigger] numeral(n)[i] != '.' by {
        assert(is_digit(numeral(n)[i]));
    }
}

/// Reading the text of an address gives the address back.
pub proof fn law_addr_round_trip(a: Ipv4Addr)
    ensures
        addr_value(addr_text(a)) == Some(a),
{
    let parts = octet_texts(a);
    assert forall|k: int| 0 <= k < 4 implies octet_value(#[trigger] parts[k]) == Some(octet(a, k))
        && forall|i: int| 0 <= i < parts[k].len() ==> #[trigger] parts[k][i] != '.' by {
        lemma_octet_round_trip(octet(a, k));
    }
    lemma_cut_joined(parts, '.', equals('.'));
    let b = a.bits as nat;
    assert(octet_value(parts[0]) == Some(octet(a, 0)));
    assert(octet_value(parts[1]) == Some(octet(a, 1)));
    assert(octet_value(parts[2]) == Some(octet(a, 2)));
    assert(octet_value(parts[3]) == Some(octet(a, 3)));
}

/// The text of an address holds digits and dots only, and at least one digit
/// at either end.
pub proof fn lemma_addr_text_shape(a: Ipv4Addr)
    ensures
        addr_text(a).len() > 0,
        forall|i: int|
            0 <= i < addr_text(a).len() ==> is_digit(#[trigger] addr_text(a)[i]) || addr_text(a)[i]
                == '.',
{
    let p = octet_texts(a);
    lemma_numeral_digits(octet(a, 0));
    lemma_numeral_digits(octet(a, 1));
    lemma_numeral_digits(octet(a, 2));
    lemma_numeral_digits(octet(a, 3));
    reveal_with_fuel(joined, 4);
    let dot = seq!['.'];
    assert(p.drop_last().drop_last().drop_last() == seq![p[0]]);
    assert(p.drop_last().drop_last().last() == p[1]);
    assert(p.drop_last().last() == p[2]);
    assert(addr_text(a) == p[0] + dot + p[1] + dot + p[2] + dot + p[3]);
}

impl Ipv4Addr {
    pub fn new(a: u8, b: u8, c: u8, d: u8) -> (r: Ipv4Addr)
        ensures
            r.bits == a * 0x100_0000 + b * 0x1_0000 + c * 0x100 + d,
    {
        Ipv4Addr {
            bits: a as u32 * 0x100_0000 + b as u32 * 0x1_0000 + c as u32 * 0x100 + d as u32,
        }
    }

    /// Dotted-decimal text.
    pub fn text(&self) -> (r: String)
        ensures
            r@ == addr_text(*self),
    {
        let mut s = String::new();
        push_number(&mut s, (self.bits / 0x100_0000) as u64);
        s.push('.');
        push_number(&mut s, (self.bits / 0x1_0000 % 0x100) as u64);
        s.push('.');
        push_number(&mut s, (self.bits / 0x100 % 0x100) as u64);
        s.push('.');
        push_number(&mut s, (self.bits % 0x100) as u64);
        proof {
            let p = octet_texts(*self);
            reveal_with_fuel(joined, 4);
            assert(p.drop_last().drop_last().drop_last() == seq![p[0]]);
            assert(p.drop_last().drop_last().last() == p[1]);
            assert(p.drop_last().last() == p[2]);
            assert(s@ == addr_text(*self));
        }
        s
    }

    /// Reads dotted-decimal text.
    pub fn parse(s: &str) -> (r: Option<Ipv4Addr>)
        ensures
            r == addr_value(s@),
    {
        let p = split(s, '.');
        assert(texts(p@).len() == p@.len());
        if p.len() != 4 {
            return None;
        }
        assert(texts(p@)[0] == p@[0]@ && texts(p@)[1] == p@[1]@ && texts(p@)[2] == p@[2]@ && texts(
            p@,
        )[3] == p@[3]@);
        match (
            parse_octet(p[0].as_str()),
            parse_octet(p[1].as_str()),
            parse_octet(p[2].as_str()),
            parse_octet(p[3].as_str()),
        ) {
            (Some(a), Some(b), Some(c), Some(d)) => Some(Ipv4Addr::new(a, b, c, d)),
            _ => None,
        }
    }
}

fn parse_octet(s: &str) -> (r: Option<u8>)
    ensures
        r is Some <==> octet_value(s@) is Some,
        r matches Some(o) ==> octet_value(s@) == Some(o as nat),
{
    let v = chars(s);
    if v.len() == 0 || v.len() > 3 {
        return None;
    }
    if v.len() > 1 && v[0] == '0' {
        return None;
    }
    let mut acc: u32 = 0;
    let mut i: usize = 0;
    while i < v.len()
        invariant
            v@ == s@,
            i <= v@.len() <= 3,
            forall|k: int| 0 <= k < i ==> is_digit(#[trigger] v@[k]),
            acc == digits_value(v@.take(i as int)),
            i == 0 ==> acc == 0,
            i == 1 ==> acc < 10,
            i == 2 ==> acc < 100,
            i == 3 ==> acc < 1000,
        decreases v@.len() - i,
    {
        let c = v[i];
        if !('0' <= c && c <= '9') {
            assert(!all_digits(v@));
            return None;
        }
        assert(v@.take(i + 1).drop_last() == v@.take(i as int));
        acc = acc * 10 + (c as u32 - 48);
        i += 1;
    }
    assert(v@.take(i as int) == v@);
    if acc <= 255 {
        Some(acc as u8)
    } else {
        None
    }
}

/// The texts of `v` with `sep` between neighbours.
pub fn join_addrs(v: &Vec<Ipv4Addr>, sep: &str) -> (r: String)
    ensures
        r@ == joined(addr_texts(v@), sep@),
{
    let mut out = String::new();
    let mut i: usize = 0;
    let ghost all = addr_texts(v@);
    while i < v.len()
        invariant
            i <= v@.len(),
            all == addr_texts(v@),
            out@ == joined(all.take(i as int), sep@),
        decreases v@.len() - i,
    {
        assert(all.take(i + 1).drop_last() == all.take(i as int));
        if i > 0 {
            out.append(sep);
        }
        out.append(v[i].text().as_str());
        i += 1;
    }
    assert(all.take(i as int) == all);
    out
}

/// A copy of a list of addresses.
pub fn clone_addrs(v: &Vec<Ipv4Addr>) -> (r: Vec<Ipv4Addr>)
    ensures
        r@ == v@,
{
    let mut out: Vec<Ipv4Addr> = Vec::new();
    let mut i: usize = 0;
    while i < v.len()
        invariant
            i <= v@.len(),
            out@ == v@.take(i as int),
        decreases v@.len() - i,
    {
        out.push(v[i]);
        i += 1;
    }
    out
}

} // verus!
