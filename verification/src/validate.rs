//! IPv4 address validation.
//!
//! Every address learned from DNS must be a globally routable unicast IPv4
//! address. Anything in a special-purpose range (RFC 6890 and friends) is
//! rejected, so that a zone can never turn the production HTTPS rule into
//! access to loopback, link-local, private, multicast or reserved space.

use vstd::prelude::*;
use vstd::arithmetic::power2::pow2;
use crate::addr::Ipv4Addr;

verus! {

/// Special-purpose IPv4 ranges that are never valid egress targets, each as
/// its network's bits and prefix length.
pub const SPECIAL_RANGES: [(u32, u8); 15] = [
    (0x0000_0000, 8),  // 0.0.0.0/8, "this" network
    (0x0a00_0000, 8),  // 10.0.0.0/8, private
    (0x6440_0000, 10),  // 100.64.0.0/10, shared address space
    (0x7f00_0000, 8),  // 127.0.0.0/8, loopback
    (0xa9fe_0000, 16),  // 169.254.0.0/16, link-local
    (0xac10_0000, 12),  // 172.16.0.0/12, private
    (0xc000_0000, 24),  // 192.0.0.0/24, IETF protocol assignments
    (0xc000_0200, 24),  // 192.0.2.0/24, TEST-NET-1
    (0xc058_6300, 24),  // 192.88.99.0/24, 6to4 relay anycast
    (0xc0a8_0000, 16),  // 192.168.0.0/16, private
    (0xc612_0000, 15),  // 198.18.0.0/15, benchmarking
    (0xc633_6400, 24),  // 198.51.100.0/24, TEST-NET-2
    (0xcb00_7100, 24),  // 203.0.113.0/24, TEST-NET-3
    (0xe000_0000, 4),  // 224.0.0.0/4, multicast
    (0xf000_0000, 4),  // 240.0.0.0/4, reserved and broadcast
];

/// Whether the first `prefix_len` bits of `ip` and `net` agree.
pub open spec fn same_network(ip: Ipv4Addr, net: u32, prefix_len: u8) -> bool {
    ip.bits as int / pow2((32 - prefix_len) as nat) as int == net as int / pow2(
        (32 - prefix_len) as nat,
    ) as int
}

/// Not in any special-purpose range.
pub open spec fn global_unicast(ip: Ipv4Addr) -> bool {
    forall|i: int|
        0 <= i < SPECIAL_RANGES@.len() ==> !same_network(
            ip,
            (#[trigger] SPECIAL_RANGES@[i]).0,
            SPECIAL_RANGES@[i].1,
        )
}

/// Returns `true` if `ip` is a globally routable unicast address.
pub fn is_global_unicast(ip: Ipv4Addr) -> (r: bool)
    ensures
        r == global_unicast(ip),
{
    let mut i: usize = 0;
    while i < 15
        invariant
            i <= 15,
            forall|k: int|
                0 <= k < i ==> !same_network(
                    ip,
                    (#[trigger] SPECIAL_RANGES@[k]).0,
                    SPECIAL_RANGES@[k].1,
                ),
        decreases 15 - i,
    {
        let range: (u32, u8) = SPECIAL_RANGES[i];
        assert(SPECIAL_RANGES@[i as int] == range && range.1 <= 32);
        if in_range(ip, range.0, range.1) {
            return false;
        }
        i += 1;
    }
    true
}

/// Whether `ip` lies in the network `net/prefix_len`.
pub fn in_range(ip: Ipv4Addr, net: u32, prefix_len: u8) -> (r: bool)
    requires
        prefix_len <= 32,
    ensures
        r == same_network(ip, net, prefix_len),
{
    if prefix_len == 0 {
        proof {
            vstd::arithmetic::power2::lemma2_to64();
            assert(pow2((32 - prefix_len) as nat) == 0x1_0000_0000);
            assert(ip.bits as int / 0x1_0000_0000 == 0);
            assert(net as int / 0x1_0000_0000 == 0);
        }
        return true;
    }
    let shift: u32 = 32 - prefix_len as u32;
    proof {
        vstd::bits::lemma_u32_shr_is_div(ip.bits, shift);
        vstd::bits::lemma_u32_shr_is_div(net, shift);
    }
    (ip.bits >> shift) == (net >> shift)
}

/// An address lies in a network exactly if both leave the same quotient.
proof fn lemma_network(ip: Ipv4Addr, net: u32, prefix_len: u8, size: nat, head: int)
    requires
        prefix_len <= 32,
        pow2((32 - prefix_len) as nat) == size,
        head >= 0,
        net == head * size,
    ensures
        same_network(ip, net, prefix_len) <==> ip.bits as int / size as int == head,
{
    vstd::arithmetic::power2::lemma_pow2_pos((32 - prefix_len) as nat);
    vstd::arithmetic::div_mod::lemma_div_by_multiple(head, size as int);
}

/// Which addresses are special, by their octets `a.b.c.d`: those that start
/// with 0, 10 or 127, or with 224 or more; 100.64 to 100.127, 169.254,
/// 172.16 to 172.31, 192.168, 198.18 and 198.19; and 192.0.0, 192.0.2,
/// 192.88.99, 198.51.100 and 203.0.113. Every other address is global unicast.
pub proof fn law_special_addresses(ip: Ipv4Addr)
    ensures
        ({
            let a = ip.bits as int / 0x100_0000;
            let b = ip.bits as int / 0x1_0000 % 0x100;
            let c = ip.bits as int / 0x100 % 0x100;
            global_unicast(ip) <==> !{
                ||| a == 0 || a == 10 || a == 127 || a >= 224
                ||| a == 100 && 64 <= b <= 127
                ||| a == 169 && b == 254
                ||| a == 172 && 16 <= b <= 31
                ||| a == 192 && b == 0 && (c == 0 || c == 2)
                ||| a == 192 && b == 88 && c == 99
                ||| a == 192 && b == 168
                ||| a == 198 && (b == 18 || b == 19)
                ||| a == 198 && b == 51 && c == 100
                ||| a == 203 && b == 0 && c == 113
            }
        }),
{
    vstd::arithmetic::power2::lemma2_to64();
    let n = ip.bits as int;
    let r = SPECIAL_RANGES@;
    assert(r.len() == 15);
    let f = |i: int| same_network(ip, r[i].0, r[i].1);
    assert(f(0) <==> n / 0x100_0000 == 0) by {
        assert(r[0] == (0u32, 8u8));
        lemma_network(ip, 0, 8, 0x100_0000, 0);
    }
    assert(f(1) <==> n / 0x100_0000 == 10) by {
        assert(r[1] == (0xa00_0000u32, 8u8));
        lemma_network(ip, 0xa00_0000, 8, 0x100_0000, 10);
    }
    assert(f(2) <==> n / 0x40_0000 == 0x191) by {
        assert(r[2] == (0x6440_0000u32, 10u8));
        lemma_network(ip, 0x6440_0000, 10, 0x40_0000, 0x191);
    }
    assert(f(3) <==> n / 0x100_0000 == 127) by {
        assert(r[3] == (0x7f00_0000u32, 8u8));
        lemma_network(ip, 0x7f00_0000, 8, 0x100_0000, 127);
    }
    assert(f(4) <==> n / 0x1_0000 == 0xa9fe) by {
        assert(r[4] == (0xa9fe_0000u32, 16u8));
        lemma_network(ip, 0xa9fe_0000, 16, 0x1_0000, 0xa9fe);
    }
    assert(f(5) <==> n / 0x10_0000 == 0xac1) by {
        assert(r[5] == (0xac10_0000u32, 12u8));
        lemma_network(ip, 0xac10_0000, 12, 0x10_0000, 0xac1);
    }
    assert(f(6) <==> n / 0x100 == 0xc0_0000) by {
        assert(r[6] == (0xc000_0000u32, 24u8));
        lemma_network(ip, 0xc000_0000, 24, 0x100, 0xc0_0000);
    }
    assert(f(7) <==> n / 0x100 == 0xc0_0002) by {
        assert(r[7] == (0xc000_0200u32, 24u8));
        lemma_network(ip, 0xc000_0200, 24, 0x100, 0xc0_0002);
    }
    assert(f(8) <==> n / 0x100 == 0xc0_5863) by {
        assert(r[8] == (0xc058_6300u32, 24u8));
        lemma_network(ip, 0xc058_6300, 24, 0x100, 0xc0_5863);
    }
    assert(f(9) <==> n / 0x1_0000 == 0xc0a8) by {
        assert(r[9] == (0xc0a8_0000u32, 16u8));
        lemma_network(ip, 0xc0a8_0000, 16, 0x1_0000, 0xc0a8);
    }
    assert(f(10) <==> n / 0x2_0000 == 0x6309) by {
        assert(r[10] == (0xc612_0000u32, 15u8));
        lemma_network(ip, 0xc612_0000, 15, 0x2_0000, 0x6309);
    }
    assert(f(11) <==> n / 0x100 == 0xc6_3364) by {
        assert(r[11] == (0xc633_6400u32, 24u8));
        lemma_network(ip, 0xc633_6400, 24, 0x100, 0xc6_3364);
    }
    assert(f(12) <==> n / 0x100 == 0xcb_0071) by {
        assert(r[12] == (0xcb00_7100u32, 24u8));
        lemma_network(ip, 0xcb00_7100, 24, 0x100, 0xcb_0071);
    }
    assert(f(13) <==> n / 0x1000_0000 == 14) by {
        assert(r[13] == (0xe000_0000u32, 4u8));
        lemma_network(ip, 0xe000_0000, 4, 0x1000_0000, 14);
    }
    assert(f(14) <==> n / 0x1000_0000 == 15) by {
        assert(r[14] == (0xf000_0000u32, 4u8));
        lemma_network(ip, 0xf000_0000, 4, 0x1000_0000, 15);
    }
    assert(global_unicast(ip) <==> !(f(0) || f(1) || f(2) || f(3) || f(4) || f(5) || f(6) || f(7)
        || f(8) || f(9) || f(10) || f(11) || f(12) || f(13) || f(14))) by {
        if !global_unicast(ip) {
            let i = choose|i: int| 0 <= i < r.len() && same_network(ip, (#[trigger] r[i]).0, r[i].1);
            assert(f(i));
        }
    }
}

/// A network is a block of addresses as large as its prefix leaves bits, and
/// starts at a multiple of that size: an address lies in it exactly if it is in
/// the same block as the network's own.
pub proof fn law_network_is_a_block(ip: Ipv4Addr, net: u32, prefix_len: u8, first: nat)
    requires
        prefix_len <= 32,
        first % pow2((32 - prefix_len) as nat) == 0,
        first <= net < first + pow2((32 - prefix_len) as nat),
    ensures
        same_network(ip, net, prefix_len) <==> first <= ip.bits < first + pow2(
            (32 - prefix_len) as nat,
        ),
{
    let size = pow2((32 - prefix_len) as nat) as int;
    vstd::arithmetic::power2::lemma_pow2_pos((32 - prefix_len) as nat);
    let q = first as int / size;
    let n = ip.bits as int;
    vstd::arithmetic::div_mod::lemma_fundamental_div_mod(first as int, size);
    vstd::arithmetic::div_mod::lemma_fundamental_div_mod_converse(
        net as int,
        size,
        q,
        net - first,
    );
    if first <= n < first + size {
        vstd::arithmetic::div_mod::lemma_fundamental_div_mod_converse(n, size, q, n - first);
    }
    if n / size == q {
        vstd::arithmetic::div_mod::lemma_fundamental_div_mod(n, size);
        vstd::arithmetic::div_mod::lemma_mod_bound(n, size);
    }
}

/// A longer prefix leaves no more addresses than a shorter one; a full one
/// leaves the address itself, and none at all leaves every address.
pub proof fn law_longer_prefix_is_narrower(ip: Ipv4Addr, net: u32, long: u8, short: u8)
    requires
        short <= long <= 32,
    ensures
        same_network(ip, ip.bits, long),
        same_network(ip, net, long) ==> same_network(ip, net, short),
        same_network(ip, net, 32) <==> ip.bits == net,
        same_network(ip, net, 0),
{
    vstd::arithmetic::power2::lemma2_to64();
    let (a, b) = (pow2((32 - long) as nat) as int, pow2((long - short) as nat) as int);
    vstd::arithmetic::power2::lemma_pow2_adds((32 - long) as nat, (long - short) as nat);
    vstd::arithmetic::power2::lemma_pow2_pos((32 - long) as nat);
    vstd::arithmetic::power2::lemma_pow2_pos((long - short) as nat);
    assert(pow2((32 - short) as nat) == a * b);
    vstd::arithmetic::div_mod::lemma_div_denominator(ip.bits as int, a, b);
    vstd::arithmetic::div_mod::lemma_div_denominator(net as int, a, b);
    assert(ip.bits as int / 0x1_0000_0000 == 0);
    assert(net as int / 0x1_0000_0000 == 0);
    assert(pow2(0) == 1);
    assert((32 - 32u8) as nat == 0);
    assert(ip.bits as int / 1 == ip.bits && net as int / 1 == net);
    assert(pow2(32) == 0x1_0000_0000);
}

} // verus!
