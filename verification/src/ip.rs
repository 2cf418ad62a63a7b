//! IP addresses as plain numeric values: a 32-bit IPv4 address or a
//! 128-bit IPv6 address, with a total order that places every IPv4
//! address below every IPv6 address.

use vstd::prelude::*;

verus! {

/// An IP address, either family, as a plain integer.
#[derive(Clone, Copy, Debug, PartialEq, Eq, Structural)]
pub enum IpAddress {
    V4(u32),
    V6(u128),
}

impl IpAddress {
    /// True when the two addresses belong to the same family.
    pub open spec fn same_family(self, other: IpAddress) -> bool {
        match (self, other) {
            (IpAddress::V4(_), IpAddress::V4(_)) => true,
            (IpAddress::V6(_), IpAddress::V6(_)) => true,
            _ => false,
        }
    }

    /// The position of this address in the total order: IPv4 addresses
    /// keep their numeric value, IPv6 addresses sort above all of them.
    pub open spec fn key(self) -> int {
        match self {
            IpAddress::V4(n) => n as int,
            IpAddress::V6(n) => 0x1_0000_0000 + n as int,
        }
    }

    /// Total-order comparison: `self <= other`.
    pub fn le(&self, other: &IpAddress) -> (r: bool)
        ensures
            r == (self.key() <= other.key()),
    {
        match (self, other) {
            (IpAddress::V4(a), IpAddress::V4(b)) => *a <= *b,
            (IpAddress::V6(a), IpAddress::V6(b)) => *a <= *b,
            (IpAddress::V4(_), IpAddress::V6(_)) => true,
            (IpAddress::V6(_), IpAddress::V4(_)) => false,
        }
    }

    /// Total-order comparison: `self < other`.
    pub fn lt(&self, other: &IpAddress) -> (r: bool)
        ensures
            r == (self.key() < other.key()),
    {
        match (self, other) {
            (IpAddress::V4(a), IpAddress::V4(b)) => *a < *b,
            (IpAddress::V6(a), IpAddress::V6(b)) => *a < *b,
            (IpAddress::V4(_), IpAddress::V6(_)) => true,
            (IpAddress::V6(_), IpAddress::V4(_)) => false,
        }
    }

    /// Family equality as executable code.
    pub fn is_same_family(&self, other: &IpAddress) -> (r: bool)
        ensures
            r == self.same_family(*other),
    {
        match (self, other) {
            (IpAddress::V4(_), IpAddress::V4(_)) => true,
            (IpAddress::V6(_), IpAddress::V6(_)) => true,
            _ => false,
        }
    }
}

} // verus!
