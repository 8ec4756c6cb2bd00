//! Address families and network prefixes.

use vstd::prelude::*;

verus! {

/// The address family of a prefix.
#[derive(Debug, Clone, Copy, PartialEq, Eq, Structural)]
pub enum Afi {
    /// IP version 4.
    Ipv4,
    /// IP version 6.
    Ipv6,
}

impl Afi {
    /// The number of bits of an address, which is also the greatest prefix
    /// length.
    pub open spec fn spec_max_length(self) -> u8 {
        match self {
            Afi::Ipv4 => 32,
            Afi::Ipv6 => 128,
        }
    }

    /// The number of bits of an address of this family.
    #[verifier::when_used_as_spec(spec_max_length)]
    pub fn max_length(self) -> (n: u8)
        ensures
            n == self.spec_max_length(),
    {
        match self {
            Afi::Ipv4 => 32,
            Afi::Ipv6 => 128,
        }
    }

    /// The place of the family in the canonical order: IPv4 comes first.
    pub open spec fn rank(self) -> int {
        match self {
            Afi::Ipv4 => 0,
            Afi::Ipv6 => 1,
        }
    }

    /// The greatest address of the family, as a number.
    pub open spec fn max_bits(self) -> u128 {
        match self {
            Afi::Ipv4 => 0xffff_ffff,
            Afi::Ipv6 => 0xffff_ffff_ffff_ffff_ffff_ffff_ffff_ffff,
        }
    }
}

/// `bits` with its last `host` bits cleared.
pub open spec fn clear_low_bits(bits: u128, host: u8) -> u128 {
    if host >= 128 {
        0
    } else {
        (bits >> host) << host
    }
}

/// The network address of the prefix of `length` bits that holds the address
/// `bits` of family `afi`: the address with its host bits cleared.
pub open spec fn network_bits(afi: Afi, bits: u128, length: u8) -> u128
    recommends
        length <= afi.max_length(),
{
    clear_low_bits(bits, (afi.max_length() - length) as u8)
}

/// What a prefix is: an address family, a network address of that family as
/// a number, and a length.
pub struct PrefixModel {
    pub afi: Afi,
    pub bits: u128,
    pub length: u8,
}

impl PrefixModel {
    /// The length is one of the family, the address is one of the family, and
    /// its host bits are zero.
    pub open spec fn wf(self) -> bool {
        &&& self.length <= self.afi.max_length()
        &&& self.bits <= self.afi.max_bits()
        &&& self.bits == network_bits(self.afi, self.bits, self.length)
    }
}

/// An IP prefix: a network address and a prefix length.
#[derive(Debug, Clone, Copy)]
pub struct Prefix {
    afi: Afi,
    bits: u128,
    length: u8,
}

impl View for Prefix {
    type V = PrefixModel;

    closed spec fn view(&self) -> PrefixModel {
        PrefixModel { afi: self.afi, bits: self.bits, length: self.length }
    }
}

/// Clearing the low bits of a number does not make it greater, and clearing
/// them twice is clearing them once.
pub proof fn lemma_clear_low_bits(bits: u128, host: u8)
    ensures
        clear_low_bits(bits, host) <= bits,
        clear_low_bits(clear_low_bits(bits, host), host) == clear_low_bits(bits, host),
{
    if host < 128 {
        let h: u128 = host as u128;
        assert(((bits >> h) << h) <= bits) by (bit_vector)
            requires
                h < 128,
        ;
        assert(((((bits >> h) << h) >> h) << h) == ((bits >> h) << h)) by (bit_vector)
            requires
                h < 128,
        ;
    }
}

impl Prefix {
    #[verifier::type_invariant]
    spec fn inv(self) -> bool {
        self@.wf()
    }

    /// The prefix of `length` bits that holds the address `bits`. The host
    /// bits of `bits` are set to zero.
    pub fn new(afi: Afi, bits: u128, length: u8) -> (p: Prefix)
        requires
            length <= afi.max_length(),
            bits <= afi.max_bits(),
        ensures
            p@ == (PrefixModel { afi, bits: network_bits(afi, bits, length), length }),
            p@.wf(),
    {
        let host: u8 = afi.max_length() - length;
        let network: u128 = if host >= 128 {
            0
        } else {
            (bits >> host) << host
        };
        proof {
            lemma_clear_low_bits(bits, host);
        }
        Prefix { afi, bits: network, length }
    }

    /// The address family of the prefix.
    pub fn afi(&self) -> (afi: Afi)
        ensures
            afi == self@.afi,
            self@.wf(),
    {
        proof {
            use_type_invariant(self);
        }
        self.afi
    }

    /// The network address of the prefix, as a number.
    pub fn bits(&self) -> (bits: u128)
        ensures
            bits == self@.bits,
            self@.wf(),
    {
        proof {
            use_type_invariant(self);
        }
        self.bits
    }

    /// The length of the prefix.
    pub fn length(&self) -> (length: u8)
        ensures
            length == self@.length,
            self@.wf(),
    {
        proof {
            use_type_invariant(self);
        }
        self.length
    }
}

} // verus!
