//! The CIDR block: an address with a netmask, and the addresses derived from it.

use vstd::arithmetic::power2::pow2;
use vstd::prelude::*;
use vstd::string::*;
use crate::address::{
    binary_text, dotted_text, hex_text, octet_at, pack_octets, push_binary, push_dotted, push_hex,
    push_reverse_dns, reverse_dns_text, wrap32,
};
use crate::decimal::{decimal_text, push_decimal};
use crate::mask::{
    is_netmask, lemma_netmask_complement, lemma_netmask_of_prefix, lemma_zero_is_netmask,
    make_netmask, netmask_of, prefix_len_of, prefix_of,
};

verus! {

/// What a block is, mathematically: two 32-bit patterns.
pub struct CidrView {
    pub address: u32,
    pub netmask: u32,
}

impl CidrView {
    /// The block of four octets and a prefix length.
    pub open spec fn from_octets(a0: u32, a1: u32, a2: u32, a3: u32, prefix: u32) -> CidrView {
        CidrView { address: pack_octets(a0, a1, a2, a3), netmask: netmask_of(prefix) }
    }

    /// A bare address: the netmask is cleared.
    pub open spec fn bare(address: u32) -> CidrView {
        CidrView { address, netmask: 0 }
    }

    /// Whether the netmask is a run of ones followed by zeros.
    pub open spec fn wf(self) -> bool {
        is_netmask(self.netmask)
    }

    /// The prefix length that the netmask stands for.
    pub open spec fn prefix_len(self) -> u32 {
        prefix_of(self.netmask)
    }

    /// The network address: the address with the bits outside the netmask
    /// cleared.
    pub open spec fn network(self) -> CidrView {
        CidrView::bare(self.address & self.netmask)
    }

    /// The netmask as an address.
    pub open spec fn netmask(self) -> CidrView {
        CidrView::bare(self.netmask)
    }

    /// The broadcast address: the address with the bits outside the netmask
    /// set.
    pub open spec fn broadcast(self) -> CidrView {
        CidrView::bare(self.address | !self.netmask)
    }

    /// One above the network address, in 32-bit arithmetic.
    pub open spec fn host_min(self) -> CidrView {
        CidrView::bare(wrap32(self.network().address + 1))
    }

    /// One below the broadcast address, in 32-bit arithmetic.
    pub open spec fn host_max(self) -> CidrView {
        CidrView::bare(wrap32(self.broadcast().address - 1))
    }

    /// The size of the host range, in 32-bit arithmetic.
    pub open spec fn num_hosts(self) -> u32 {
        wrap32(self.host_max().address - self.host_min().address + 1)
    }

    /// The four octets, most significant first.
    pub open spec fn octets(self) -> Seq<u32> {
        Seq::new(4, |i: int| octet_at(self.address, i))
    }

    /// The address in dotted-decimal notation, a slash, and the netmask in
    /// dotted-decimal notation.
    pub open spec fn ip_subnet_text(self) -> Seq<char> {
        dotted_text(self.address) + seq!['/'] + dotted_text(self.netmask)
    }

    /// CIDR notation: the address in dotted-decimal notation, a slash, and
    /// the prefix length in decimal.
    pub open spec fn cidr_text(self) -> Seq<char> {
        dotted_text(self.address) + seq!['/'] + decimal_text(self.prefix_len() as nat)
    }
}

impl CidrView {
    /// With a prefix length of 32 the block is a single address: the netmask
    /// is all ones, and the network and the broadcast address are the address
    /// itself. The first host is then one above the address and the last one
    /// below it, each wrapping round at the ends of the 32-bit range, and the
    /// number of hosts wraps round to the largest 32-bit number.
    pub proof fn lemma_single_address(a0: u32, a1: u32, a2: u32, a3: u32)
        ensures
            ({
                let block = CidrView::from_octets(a0, a1, a2, a3, 32);
                &&& block.wf()
                &&& block.netmask == 0xffff_ffffu32
                &&& block.network().address == block.address
                &&& block.broadcast().address == block.address
                &&& block.host_min().address == wrap32(block.address + 1)
                &&& block.host_max().address == wrap32(block.address - 1)
                &&& block.host_max().address == if block.address == 0 {
                    0xffff_ffffu32
                } else {
                    (block.address - 1) as u32
                }
                &&& block.num_hosts() == 0xffff_ffffu32
            }),
    {
        let address = pack_octets(a0, a1, a2, a3);
        assert(0xffff_ffffu32 << 0u32 == 0xffff_ffffu32) by (bit_vector);
        assert(address & 0xffff_ffffu32 == address) by (bit_vector);
        assert(address | !0xffff_ffffu32 == address) by (bit_vector);
    }

    /// The network and the broadcast address bound the block: the network
    /// is the address with the bits outside the netmask cleared, the
    /// broadcast address the same with those bits set, and the block between
    /// them holds 2 to the power of 32 less the prefix length addresses.
    pub proof fn lemma_block_bounds(self)
        requires
            self.wf(),
        ensures
            self.network().address <= self.address <= self.broadcast().address,
            self.broadcast().address - self.network().address + 1 == pow2(
                (32 - self.prefix_len()) as nat,
            ),
    {
        let a = self.address;
        let m = self.netmask;
        lemma_netmask_of_prefix(m);
        lemma_netmask_complement(self.prefix_len());
        assert(a & m <= a && a <= a | !m && (a | !m) - (a & m) == !m) by (bit_vector);
    }

    /// The number of hosts is the number of addresses in the block less the
    /// network and the broadcast address, in 32-bit arithmetic: 2 to the power
    /// of 32 less the prefix length, minus 2. For a prefix length of 31 that
    /// is 0, and for one of 32 it wraps round.
    pub proof fn lemma_num_hosts(self)
        requires
            self.wf(),
        ensures
            self.num_hosts() == wrap32(pow2((32 - self.prefix_len()) as nat) - 2),
    {
        self.lemma_block_bounds();
    }

    /// With a prefix length of 0 the block is the whole address space: the
    /// netmask is all zeros, the network is 0.0.0.0 and the broadcast address
    /// 255.255.255.255.
    pub proof fn lemma_whole_space(a0: u32, a1: u32, a2: u32, a3: u32)
        ensures
            ({
                let block = CidrView::from_octets(a0, a1, a2, a3, 0);
                &&& block.wf()
                &&& block.netmask == 0u32
                &&& block.network().address == 0u32
                &&& block.broadcast().address == 0xffff_ffffu32
                &&& block.host_min().address == 1u32
                &&& block.host_max().address == 0xffff_fffeu32
                &&& block.num_hosts() == 0xffff_fffeu32
            }),
    {
        let address = pack_octets(a0, a1, a2, a3);
        assert(address & 0u32 == 0u32) by (bit_vector);
        assert(address | !0u32 == 0xffff_ffffu32) by (bit_vector);
    }
}

/// An IPv4 address with a netmask. The netmask is always a run of one-bits
/// followed by zero-bits; the address is unconstrained.
#[derive(Clone, Copy, Debug, PartialEq, Eq, Structural)]
pub struct CIDR {
    address: u32,
    netmask: u32,
}

impl View for CIDR {
    type V = CidrView;

    closed spec fn view(&self) -> CidrView {
        CidrView { address: self.address, netmask: self.netmask }
    }
}

impl CIDR {
    /// The netmask of every block is a run of ones followed by zeros.
    #[verifier::type_invariant]
    spec fn inv(self) -> bool {
        is_netmask(self.netmask)
    }

    /// Two blocks with the same view are the same block.
    pub proof fn lemma_view_injective(self, other: CIDR)
        requires
            self@ == other@,
        ensures
            self == other,
    {
    }

    /// Every block that executable code holds has a proper netmask.
    pub fn netmask_is_proper(&self)
        ensures
            self@.wf(),
    {
        proof {
            use_type_invariant(self);
        }
    }

    /// Builds a block from four octets and a prefix length. The first octet
    /// goes into the most significant byte of the address. An octet above 255
    /// is not cut off: its upper bits run into the octets before it.
    pub fn from_octets(a0: u32, a1: u32, a2: u32, a3: u32, netmask: u32) -> (r: CIDR)
        requires
            netmask <= 32,
        ensures
            r@ == CidrView::from_octets(a0, a1, a2, a3, netmask),
            r@.wf(),
    {
        CIDR { address: a0 << 24 | a1 << 16 | a2 << 8 | a3, netmask: make_netmask(netmask) }
    }

    /// The network address of the block.
    pub fn network(&self) -> (r: CIDR)
        ensures
            r@ == self@.network(),
    {
        proof {
            lemma_zero_is_netmask();
        }
        CIDR { address: self.address & self.netmask, netmask: 0 }
    }

    /// The netmask of the block, as an address.
    pub fn netmask(&self) -> (r: CIDR)
        ensures
            r@ == self@.netmask(),
    {
        proof {
            lemma_zero_is_netmask();
        }
        CIDR { address: self.netmask, netmask: 0 }
    }

    /// The broadcast address of the block.
    pub fn broadcast(&self) -> (r: CIDR)
        ensures
            r@ == self@.broadcast(),
    {
        proof {
            lemma_zero_is_netmask();
        }
        CIDR { address: self.address | !self.netmask, netmask: 0 }
    }

    /// The first host of the block: one above the network address. Above the
    /// highest address it wraps round to 0.0.0.0.
    pub fn host_min(&self) -> (r: CIDR)
        ensures
            r@ == self@.host_min(),
    {
        proof {
            lemma_zero_is_netmask();
        }
        CIDR { address: (self.address & self.netmask).wrapping_add(1), netmask: 0 }
    }

    /// The last host of the block: one below the broadcast address. Below
    /// the lowest address it wraps round to 255.255.255.255.
    pub fn host_max(&self) -> (r: CIDR)
        ensures
            r@ == self@.host_max(),
    {
        proof {
            lemma_zero_is_netmask();
        }
        CIDR { address: (self.address | !self.netmask).wrapping_sub(1), netmask: 0 }
    }

    /// The number of hosts from the first to the last, in 32-bit arithmetic.
    pub fn num_hosts(&self) -> (n: u32)
        ensures
            n == self@.num_hosts(),
    {
        let min = self.host_min();
        let max = self.host_max();
        max.address.wrapping_sub(min.address).wrapping_add(1)
    }

    /// The four octets of the address, most significant first.
    pub fn to_octets(&self) -> (o: Vec<u32>)
        ensures
            o@ == self@.octets(),
    {
        let o = vec![
            self.address >> 24 & 0xff,
            self.address >> 16 & 0xff,
            self.address >> 8 & 0xff,
            self.address & 0xff,
        ];
        assert(o@ =~= self@.octets());
        o
    }

    /// The prefix length of the netmask.
    pub fn prefix_len(&self) -> (prefix: u32)
        ensures
            prefix <= 32,
            prefix == self@.prefix_len(),
            netmask_of(prefix) == self@.netmask,
    {
        proof {
            use_type_invariant(self);
        }
        prefix_len_of(self.netmask)
    }

    /// The address as a 32-bit number.
    pub fn to_u32(&self) -> (address: u32)
        ensures
            address == self@.address,
    {
        self.address
    }

    /// Writes an address in dotted-decimal notation.
    pub fn to_string(ip: u32) -> (s: String)
        ensures
            s@ == dotted_text(ip),
    {
        let mut s = String::new();
        push_dotted(&mut s, ip);
        assert(s@ =~= dotted_text(ip));
        s
    }

    /// The address in dotted-decimal notation.
    pub fn to_string_ip(&self) -> (s: String)
        ensures
            s@ == dotted_text(self@.address),
    {
        CIDR::to_string(self.address)
    }

    /// The address and the netmask, both in dotted-decimal notation.
    pub fn to_string_ip_subnet(&self) -> (s: String)
        ensures
            s@ == self@.ip_subnet_text(),
    {
        proof {
            reveal_strlit("/");
        }
        let mut s = String::new();
        push_dotted(&mut s, self.address);
        s.append("/");
        push_dotted(&mut s, self.netmask);
        assert(s@ =~= self@.ip_subnet_text());
        s
    }

    /// The block in CIDR notation.
    pub fn to_string_cidr(&self) -> (s: String)
        ensures
            s@ == self@.cidr_text(),
    {
        proof {
            reveal_strlit("/");
        }
        let prefix = self.prefix_len();
        let mut s = String::new();
        push_dotted(&mut s, self.address);
        s.append("/");
        push_decimal(&mut s, prefix);
        assert(s@ =~= self@.cidr_text());
        s
    }

    /// The address as eight hexadecimal digits.
    pub fn to_string_hex(&self) -> (s: String)
        ensures
            s@ == hex_text(self@.address),
    {
        let mut s = String::new();
        push_hex(&mut s, self.address);
        assert(s@ =~= hex_text(self@.address));
        s
    }

    /// The address in dotted-binary notation.
    pub fn to_string_binary(&self) -> (s: String)
        ensures
            s@ == binary_text(self@.address),
    {
        let mut s = String::new();
        push_binary(&mut s, self.address);
        assert(s@ =~= binary_text(self@.address));
        s
    }

    /// The name under which the address is looked up in reverse DNS.
    pub fn reverse_dns(&self) -> (s: String)
        ensures
            s@ == reverse_dns_text(self@.address),
    {
        let mut s = String::new();
        push_reverse_dns(&mut s, self.address);
        assert(s@ =~= reverse_dns_text(self@.address));
        s
    }
}

} // verus!
