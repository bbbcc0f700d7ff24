//! The two address families and the size of their address spaces.

use vstd::prelude::*;
use vstd::arithmetic::power2::{pow2, lemma2_to64, lemma_pow2_adds};

verus! {

/// An address family. Blocks of different families never meet: every
/// comparison and every merge happens inside one family.
#[derive(Clone, Copy, Debug, PartialEq, Eq, Structural)]
pub enum Family {
    V4,
    V6,
}

/// The highest IPv4 address.
pub const V4_MAX: u128 = 0xffff_ffff;

/// The highest IPv6 address.
pub const V6_MAX: u128 = 0xffff_ffff_ffff_ffff_ffff_ffff_ffff_ffff;

impl Family {
    /// Number of bits in an address of this family.
    pub open spec fn width(self) -> nat {
        match self {
            Family::V4 => 32,
            Family::V6 => 128,
        }
    }

    /// Number of addresses in this family; addresses are `0 .. space()`.
    pub open spec fn space(self) -> int {
        pow2(self.width()) as int
    }

    /// Number of bits in an address of this family.
    pub fn bits(self) -> (w: u8)
        ensures
            w == self.width(),
    {
        match self {
            Family::V4 => 32,
            Family::V6 => 128,
        }
    }

    /// The highest address of this family.
    pub fn max_address(self) -> (m: u128)
        ensures
            m == self.space() - 1,
    {
        proof {
            lemma_space_values();
        }
        match self {
            Family::V4 => V4_MAX,
            Family::V6 => V6_MAX,
        }
    }
}

/// The two address spaces hold 2^32 and 2^128 addresses.
pub proof fn lemma_space_values()
    ensures
        Family::V4.space() == 0x1_0000_0000,
        Family::V6.space() == 0x1_0000_0000_0000_0000_0000_0000_0000_0000,
        Family::V4.space() == V4_MAX + 1,
        Family::V6.space() == V6_MAX + 1,
{
    lemma2_to64();
    lemma_pow2_adds(64, 64);
    assert(pow2(128) == pow2(64) * pow2(64));
    assert(0x1_0000_0000_0000_0000int * 0x1_0000_0000_0000_0000int
        == 0x1_0000_0000_0000_0000_0000_0000_0000_0000int) by (nonlinear_arith);
}

} // verus!
