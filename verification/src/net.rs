//! Internet addresses as plain values.
//!
//! An address is either an IPv4 address, held as its 32-bit value, or an
//! IPv6 address, held as its 128-bit value (both in network order, so
//! `1.2.3.4` is `0x01020304`). Addresses are ordered as the standard
//! library orders them: every IPv4 address before every IPv6 address, and
//! within a family by numeric value. That order is carried by
//! [`IpAddr::key`], a pair of integers whose lexicographic order is the
//! address order.

use vstd::prelude::*;

verus! {

/// An IPv4 or IPv6 address.
#[derive(Clone, Copy, Debug, PartialEq, Eq, Structural, Hash)]
pub enum IpAddr {
    V4(u32),
    V6(u128),
}

/// A pair of integers that names an address: the family (0 for IPv4,
/// 1 for IPv6) and the address value.
pub open spec fn valid_key(k: (u8, u128)) -> bool {
    ||| (k.0 == 0 && k.1 <= u32::MAX)
    ||| k.0 == 1
}

impl IpAddr {
    /// The family/value pair of this address.
    pub open spec fn addr_key(self) -> (u8, u128) {
        match self {
            IpAddr::V4(a) => (0u8, a as u128),
            IpAddr::V6(a) => (1u8, a),
        }
    }

    /// Builds `a.b.c.d`.
    pub fn v4(a: u8, b: u8, c: u8, d: u8) -> (r: IpAddr)
        ensures
            r == IpAddr::V4((a * 0x100_0000 + b * 0x1_0000 + c * 0x100 + d) as u32),
    {
        let v: u32 = (a as u32) * 0x100_0000 + (b as u32) * 0x1_0000 + (c as u32) * 0x100 + (d as u32);
        IpAddr::V4(v)
    }

    /// The family/value pair of this address, whose order is the address order.
    pub fn key(&self) -> (k: (u8, u128))
        ensures
            k == self.addr_key(),
            valid_key(k),
    {
        match self {
            IpAddr::V4(a) => (0u8, *a as u128),
            IpAddr::V6(a) => (1u8, *a),
        }
    }

    /// The address that a valid family/value pair names.
    pub fn from_key(k: (u8, u128)) -> (r: IpAddr)
        requires
            valid_key(k),
        ensures
            r.addr_key() == k,
    {
        if k.0 == 0 {
            IpAddr::V4(k.1 as u32)
        } else {
            IpAddr::V6(k.1)
        }
    }

    /// Two addresses are the same exactly when their keys are.
    pub proof fn lemma_key_injective(a: IpAddr, b: IpAddr)
        ensures
            a.addr_key() == b.addr_key() <==> a == b,
    {
    }
}

} // verus!
