//! IP addresses and network prefixes, with their mathematical model.

use vstd::arithmetic::power2::pow2;
use vstd::prelude::*;

verus! {

/// An IPv4 or IPv6 address, held as its octets in network order.
#[derive(Clone, Copy, Debug, PartialEq, Eq, Hash)]
pub enum IpAddr {
    V4([u8; 4]),
    V6([u8; 16]),
}

/// The number that a sequence of octets denotes, most significant first.
pub open spec fn be_value(octets: Seq<u8>) -> nat
    decreases octets.len(),
{
    if octets.len() == 0 {
        0
    } else {
        be_value(octets.drop_last()) * 256 + octets.last() as nat
    }
}

impl IpAddr {
    /// Whether this is an IPv6 address.
    pub open spec fn v6(self) -> bool {
        self is V6
    }

    /// The octets of the address, in network order.
    pub open spec fn octets(self) -> Seq<u8> {
        match self {
            IpAddr::V4(o) => o@,
            IpAddr::V6(o) => o@,
        }
    }

    /// The address read as one unsigned number.
    pub open spec fn bits(self) -> nat {
        be_value(self.octets())
    }

    /// The number of bits of an address of this family: 32 or 128.
    pub open spec fn width(self) -> nat {
        family_width(self.v6())
    }

    /// Whether the address is an IPv4 address.
    pub fn is_ipv4(&self) -> (r: bool)
        ensures
            r == !self.v6(),
    {
        match self {
            IpAddr::V4(_) => true,
            IpAddr::V6(_) => false,
        }
    }

    /// The widest prefix length that an address of this family admits.
    pub fn max_prefix(&self) -> (r: u8)
        ensures
            r == self.width(),
    {
        match self {
            IpAddr::V4(_) => 32,
            IpAddr::V6(_) => 128,
        }
    }
}

/// The number of bits of an address: 128 for IPv6, 32 for IPv4.
pub open spec fn family_width(v6: bool) -> nat {
    if v6 {
        128
    } else {
        32
    }
}

/// A number with its `host` low bits cleared.
pub open spec fn clear_low_bits(bits: nat, host: nat) -> nat {
    (bits / pow2(host)) * pow2(host)
}

/// A network prefix: an address family, a prefix length and the address
/// bits with everything below the prefix cleared.
pub ghost struct Prefix {
    pub v6: bool,
    pub len: nat,
    pub bits: nat,
}

impl Prefix {
    /// The prefix of the given length that holds `ip`.
    pub open spec fn of(ip: IpAddr, len: nat) -> Prefix {
        Prefix {
            v6: ip.v6(),
            len,
            bits: clear_low_bits(ip.bits(), (ip.width() - len) as nat),
        }
    }

    /// Whether `ip` lies in this network.
    pub open spec fn contains(self, ip: IpAddr) -> bool {
        self.len <= ip.width() && Prefix::of(ip, self.len) == self
    }

    /// The length is within the family's width and no host bit is set.
    pub open spec fn wf(self) -> bool {
        &&& self.len <= family_width(self.v6)
        &&& self.bits == clear_low_bits(self.bits, (family_width(self.v6) - self.len) as nat)
    }
}

/// Clearing the low bits twice is clearing them once, so the prefix of an
/// address is well formed.
pub proof fn lemma_prefix_of_wf(ip: IpAddr, len: nat)
    requires
        len <= ip.width(),
    ensures
        Prefix::of(ip, len).wf(),
{
    let host = (ip.width() - len) as nat;
    lemma_clear_low_bits_idempotent(ip.bits(), host);
}

/// Clearing the low bits twice is clearing them once.
pub proof fn lemma_clear_low_bits_idempotent(bits: nat, host: nat)
    ensures
        clear_low_bits(clear_low_bits(bits, host), host) == clear_low_bits(bits, host),
{
    let p = pow2(host);
    vstd::arithmetic::power2::lemma_pow2_pos(host);
    let q = bits / p;
    assert((q * p) / p == q) by (nonlinear_arith)
        requires
            p > 0,
            q >= 0,
    ;
}

} // verus!
