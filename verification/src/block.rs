//! Address blocks in canonical form, and the numeric intervals they cover.

use vstd::prelude::*;
use vstd::arithmetic::power2::{pow2, lemma_pow2_pos};
use crate::align::{aligned, range_last, span_of_bits, lemma_aligned_below, lemma_aligned_fits};
use crate::family::{Family, lemma_space_values};

verus! {

/// Why an address and a prefix length do not make a block.
#[derive(Clone, Copy, Debug, PartialEq, Eq, Structural)]
pub enum InvalidBlockError {
    /// The prefix is longer than an address of the family.
    PrefixTooLong,
    /// The address does not exist in the family.
    AddressOutOfRange,
    /// A bit of the address beyond the prefix is set.
    HostBitsSet,
}

/// A CIDR block: all addresses of one family that share the first
/// `prefix_len` bits of `address`. Every value of this type is canonical:
/// the bits of `address` beyond the prefix are zero.
#[derive(Clone, Copy, Debug, PartialEq, Eq, Structural)]
pub struct Block {
    family: Family,
    address: u128,
    prefix_len: u8,
}

/// A closed interval `start ..= end` of addresses of one family.
#[derive(Clone, Copy, Debug, PartialEq, Eq, Structural)]
pub struct Interval {
    family: Family,
    start: u128,
    end: u128,
}

/// An address and a prefix length are canonical in a family when the prefix
/// fits the family's width, the address exists in the family, and the address
/// is a multiple of the block's size.
pub open spec fn canonical(family: Family, address: int, prefix_len: nat) -> bool {
    &&& prefix_len <= family.width()
    &&& address < family.space()
    &&& aligned(address, (family.width() - prefix_len) as nat)
}

/// The reason for which `canonicalize` rejects its arguments, if it does.
pub open spec fn rejection(family: Family, address: int, prefix_len: nat) -> Option<
    InvalidBlockError,
> {
    if prefix_len > family.width() {
        Some(InvalidBlockError::PrefixTooLong)
    } else if address >= family.space() {
        Some(InvalidBlockError::AddressOutOfRange)
    } else if !aligned(address, (family.width() - prefix_len) as nat) {
        Some(InvalidBlockError::HostBitsSet)
    } else {
        None
    }
}

impl Block {
    pub closed spec fn spec_family(&self) -> Family {
        self.family
    }

    pub closed spec fn spec_address(&self) -> u128 {
        self.address
    }

    pub closed spec fn spec_prefix_len(&self) -> u8 {
        self.prefix_len
    }

    /// Number of address bits that the prefix leaves free.
    pub open spec fn host_bits(&self) -> nat {
        (self.family().width() - self.prefix_len()) as nat
    }

    /// The lowest address of the block.
    pub open spec fn first(&self) -> int {
        self.address() as int
    }

    /// The highest address of the block.
    pub open spec fn last(&self) -> int {
        range_last(self.first(), self.host_bits())
    }

    /// Whether the block holds the address `a` of its family.
    pub open spec fn contains(&self, a: int) -> bool {
        self.first() <= a <= self.last()
    }

    /// Canonical form: what every block satisfies.
    #[verifier::type_invariant]
    pub open spec fn wf(&self) -> bool {
        &&& canonical(self.family(), self.first(), self.prefix_len() as nat)
        &&& self.last() < self.family().space()
    }

    /// The block's family.
    #[verifier::when_used_as_spec(spec_family)]
    pub fn family(&self) -> (f: Family)
        ensures
            f == self.family(),
    {
        self.family
    }

    /// The block's lowest address.
    #[verifier::when_used_as_spec(spec_address)]
    pub fn address(&self) -> (a: u128)
        ensures
            a == self.address(),
    {
        self.address
    }

    /// The length of the block's prefix, in bits.
    #[verifier::when_used_as_spec(spec_prefix_len)]
    pub fn prefix_len(&self) -> (p: u8)
        ensures
            p == self.prefix_len(),
    {
        self.prefix_len
    }

    /// A block is not empty: it holds its first and its last address.
    pub proof fn lemma_not_empty(self)
        requires
            self.wf(),
        ensures
            0 <= self.first() <= self.last() < self.family().space(),
            self.contains(self.first()),
            self.contains(self.last()),
    {
        lemma_pow2_pos(self.host_bits());
    }

    /// Two blocks with the same family, address and prefix are the same block.
    pub proof fn lemma_same(self, other: Block)
        requires
            self.family() == other.family(),
            self.address() == other.address(),
            self.prefix_len() == other.prefix_len(),
        ensures
            self == other,
    {
    }

    /// Builds a block from parts already known to be canonical.
    pub(crate) fn from_canonical(family: Family, address: u128, prefix_len: u8) -> (b: Block)
        requires
            canonical(family, address as int, prefix_len as nat),
        ensures
            b.wf(),
            b.family() == family,
            b.address() == address,
            b.prefix_len() == prefix_len,
    {
        proof {
            lemma_aligned_fits(
                address as int,
                (family.width() - prefix_len) as nat,
                family.width(),
            );
        }
        Block { family, address, prefix_len }
    }

    /// The interval of addresses that the block covers.
    pub fn to_interval(&self) -> (r: Interval)
        ensures
            r.wf(),
            r.family() == self.family(),
            r.start() == self.first(),
            r.end() == self.last(),
    {
        proof {
            use_type_invariant(self);
            lemma_space_values();
            lemma_pow2_pos(self.host_bits());
        }
        let span = span_of_bits(self.family.bits() - self.prefix_len);
        Interval { family: self.family, start: self.address, end: self.address + span }
    }
}

/// Makes a block of an address and a prefix length, or says why they make
/// none. Nothing is masked away: an address with host bits set is an error.
pub fn canonicalize(family: Family, address: u128, prefix_len: u8) -> (r: Result<
    Block,
    InvalidBlockError,
>)
    ensures
        r is Ok <==> canonical(family, address as int, prefix_len as nat),
        r matches Ok(b) ==> b.wf() && b.family() == family && b.address() == address
            && b.prefix_len() == prefix_len,
        r matches Err(e) ==> rejection(family, address as int, prefix_len as nat) == Some(e),
{
    let width = family.bits();
    if prefix_len > width {
        return Err(InvalidBlockError::PrefixTooLong);
    }
    if address > family.max_address() {
        return Err(InvalidBlockError::AddressOutOfRange);
    }
    let span = span_of_bits(width - prefix_len);
    let ghost bits = (width - prefix_len) as nat;
    let is_aligned = if span == u128::MAX {
        proof {
            lemma_space_values();
            crate::align::lemma_pow2_monotone(bits, 128);
            lemma_aligned_below(address as int, bits);
        }
        address == 0
    } else {
        address % (span + 1) == 0
    };
    if !is_aligned {
        return Err(InvalidBlockError::HostBitsSet);
    }
    Ok(Block::from_canonical(family, address, prefix_len))
}

impl Interval {
    pub closed spec fn spec_family(&self) -> Family {
        self.family
    }

    pub closed spec fn spec_start(&self) -> u128 {
        self.start
    }

    pub closed spec fn spec_end(&self) -> u128 {
        self.end
    }

    /// Whether the interval holds the address `a` of its family.
    pub open spec fn contains(&self, a: int) -> bool {
        self.start() <= a <= self.end()
    }

    /// What every interval satisfies: it is not empty and lies in the
    /// address space of its family.
    #[verifier::type_invariant]
    pub open spec fn wf(&self) -> bool {
        self.start() <= self.end() < self.family().space()
    }

    /// The interval `start ..= end` of a family, unless it is empty or
    /// reaches beyond the family's highest address.
    pub fn new(family: Family, start: u128, end: u128) -> (r: Option<Interval>)
        ensures
            r is Some <==> start <= end < family.space(),
            r matches Some(i) ==> i.wf() && i.family() == family && i.start() == start && i.end()
                == end,
    {
        if start <= end && end <= family.max_address() {
            Some(Interval { family, start, end })
        } else {
            None
        }
    }

    /// Builds an interval from bounds already known to be in order and in
    /// the family's address space.
    pub(crate) fn from_bounds(family: Family, start: u128, end: u128) -> (i: Interval)
        requires
            start <= end < family.space(),
        ensures
            i.wf(),
            i.family() == family,
            i.start() == start,
            i.end() == end,
    {
        Interval { family, start, end }
    }

    /// The interval's family.
    #[verifier::when_used_as_spec(spec_family)]
    pub fn family(&self) -> (f: Family)
        ensures
            f == self.family(),
    {
        self.family
    }

    /// The interval's lowest address.
    #[verifier::when_used_as_spec(spec_start)]
    pub fn start(&self) -> (a: u128)
        ensures
            a == self.start(),
    {
        self.start
    }

    /// The interval's highest address.
    #[verifier::when_used_as_spec(spec_end)]
    pub fn end(&self) -> (a: u128)
        ensures
            a == self.end(),
    {
        self.end
    }
}

} // verus!
