//! The content of a ROA: the route origin attestation, its DER encoding, and
//! the items that it lists.

use crate::der::{
    bit_string, check_integer, element_of, is_integer, lemma_bit_string_is_padded, low_bits_zero,
    read_bit_string, read_element_of, read_unsigned_integer, unsigned_integer, BitString,
    TAG_BIT_STRING, TAG_CONTEXT_0, TAG_INTEGER, TAG_OCTET_STRING, TAG_SEQUENCE,
};
use crate::error::{FormatError, RoaError};
use crate::prefix::{network_bits, Afi, Prefix, PrefixModel};
use crate::range::{make_record, range_models, RangeModel, RoaPrefixRange};
use vstd::prelude::*;

verus! {

/// One address of a ROA: a prefix as a bit string, with or without a maximum
/// length.
#[derive(Debug, Clone, Copy)]
pub struct RoaIpAddress {
    /// The bits of the prefix; their number is its length.
    pub address: BitString,
    /// The maximum length, from 0 to 128, where one is given.
    pub max_length: Option<u8>,
}

/// The addresses of one address family in a ROA.
#[derive(Debug)]
pub struct RoaIpAddressFamily {
    /// The two octets that name the address family.
    pub address_family: (u8, u8),
    /// The addresses, one at least.
    pub addresses: Vec<RoaIpAddress>,
}

/// What a `RoaIpAddressFamily` holds.
pub struct FamilyModel {
    pub address_family: (u8, u8),
    pub addresses: Seq<RoaIpAddress>,
}

impl View for RoaIpAddressFamily {
    type V = FamilyModel;

    open spec fn view(&self) -> FamilyModel {
        FamilyModel { address_family: self.address_family, addresses: self.addresses@ }
    }
}

/// A route origin attestation: an autonomous system and the addresses that
/// it may originate, by address family.
#[derive(Debug)]
pub struct RouteOriginAttestation {
    /// The number of the autonomous system.
    pub as_id: u32,
    /// The addresses of one or two address families.
    pub ip_addr_blocks: Vec<RoaIpAddressFamily>,
}

/// What a `RouteOriginAttestation` holds.
pub struct RoaModel {
    pub as_id: u32,
    pub ip_addr_blocks: Seq<FamilyModel>,
}

/// What each of some address families holds.
pub open spec fn family_models(blocks: Seq<RoaIpAddressFamily>) -> Seq<FamilyModel> {
    Seq::new(blocks.len(), |i: int| blocks[i]@)
}

impl View for RouteOriginAttestation {
    type V = RoaModel;

    open spec fn view(&self) -> RoaModel {
        RoaModel { as_id: self.as_id, ip_addr_blocks: family_models(self.ip_addr_blocks@) }
    }
}

/// The `ROAIPAddress` encoded at the start of `s`, and what follows it:
/// a SEQUENCE of a BIT STRING of at most 128 bits and, optionally, an INTEGER
/// from 0 to 128.
pub open spec fn roa_ip_address(s: Seq<u8>) -> Option<(RoaIpAddress, Seq<u8>)> {
    match element_of(s, TAG_SEQUENCE) {
        None => None,
        Some(outer) => match element_of(outer.contents, TAG_BIT_STRING) {
            None => None,
            Some(first) => match bit_string(first.contents) {
                None => None,
                Some(address) => if first.rest.len() == 0 {
                    Some((RoaIpAddress { address, max_length: None }, outer.rest))
                } else {
                    match element_of(first.rest, TAG_INTEGER) {
                        None => None,
                        Some(second) => match unsigned_integer(second.contents, 128) {
                            None => None,
                            Some(l) => if second.rest.len() == 0 {
                                Some(
                                    (
                                        RoaIpAddress { address, max_length: Some(l as u8) },
                                        outer.rest,
                                    ),
                                )
                            } else {
                                None
                            },
                        },
                    }
                },
            },
        },
    }
}

/// The `ROAIPAddress` values encoded in `s` one after another, where `s`
/// holds nothing else.
pub open spec fn roa_ip_addresses(s: Seq<u8>) -> Option<Seq<RoaIpAddress>>
    decreases s.len(),
{
    if s.len() == 0 {
        Some(Seq::empty())
    } else {
        match roa_ip_address(s) {
            None => None,
            Some((address, rest)) => match roa_ip_addresses(rest) {
                None => None,
                Some(others) => Some(seq![address] + others),
            },
        }
    }
}

/// The `ROAIPAddressFamily` encoded at the start of `s`, and what follows it:
/// a SEQUENCE of an OCTET STRING of two octets and a SEQUENCE of one or more
/// `ROAIPAddress`.
pub open spec fn roa_ip_address_family(s: Seq<u8>) -> Option<(FamilyModel, Seq<u8>)> {
    match element_of(s, TAG_SEQUENCE) {
        None => None,
        Some(outer) => match element_of(outer.contents, TAG_OCTET_STRING) {
            None => None,
            Some(first) => match element_of(first.rest, TAG_SEQUENCE) {
                None => None,
                Some(second) => match roa_ip_addresses(second.contents) {
                    None => None,
                    Some(addresses) => if first.contents.len() == 2 && second.rest.len() == 0
                        && addresses.len() >= 1 {
                        Some(
                            (
                                FamilyModel {
                                    address_family: (first.contents[0], first.contents[1]),
                                    addresses,
                                },
                                outer.rest,
                            ),
                        )
                    } else {
                        None
                    },
                },
            },
        },
    }
}

/// The `ROAIPAddressFamily` values encoded in `s` one after another, where
/// `s` holds nothing else.
pub open spec fn roa_ip_address_families(s: Seq<u8>) -> Option<Seq<FamilyModel>>
    decreases s.len(),
{
    if s.len() == 0 {
        Some(Seq::empty())
    } else {
        match roa_ip_address_family(s) {
            None => None,
            Some((family, rest)) => match roa_ip_address_families(rest) {
                None => None,
                Some(others) => Some(seq![family] + others),
            },
        }
    }
}

/// What follows the version at the start of the contents `s` of a
/// `RouteOriginAttestation`. The version is optional: where `s` starts with
/// the context tag 0, that tag holds one INTEGER and nothing else. Its value
/// is not looked at.
pub open spec fn after_version(s: Seq<u8>) -> Option<Seq<u8>> {
    if s.len() > 0 && s[0] == TAG_CONTEXT_0 {
        match element_of(s, TAG_CONTEXT_0) {
            None => None,
            Some(version) => match element_of(version.contents, TAG_INTEGER) {
                None => None,
                Some(number) => if is_integer(number.contents) && number.rest.len() == 0 {
                    Some(version.rest)
                } else {
                    None
                },
            },
        }
    } else {
        Some(s)
    }
}

/// The route origin attestation that `s` is the DER encoding of: a SEQUENCE
/// of an optional version, an INTEGER from 0 to 4294967295, and a SEQUENCE of
/// one or two `ROAIPAddressFamily`. `None` where `s` is no such encoding, or
/// holds anything after it.
pub open spec fn route_origin_attestation(s: Seq<u8>) -> Option<RoaModel> {
    match element_of(s, TAG_SEQUENCE) {
        None => None,
        Some(outer) => match after_version(outer.contents) {
            None => None,
            Some(body) => match element_of(body, TAG_INTEGER) {
                None => None,
                Some(first) => match unsigned_integer(first.contents, 0xffff_ffff) {
                    None => None,
                    Some(as_id) => match element_of(first.rest, TAG_SEQUENCE) {
                        None => None,
                        Some(second) => match roa_ip_address_families(second.contents) {
                            None => None,
                            Some(blocks) => if outer.rest.len() == 0 && second.rest.len() == 0
                                && 1 <= blocks.len() <= 2 {
                                Some(RoaModel { as_id: as_id as u32, ip_addr_blocks: blocks })
                            } else {
                                None
                            },
                        },
                    },
                },
            },
        },
    }
}

/// Reads the `ROAIPAddress` at the start of `s`.
fn read_roa_ip_address<'a>(s: &'a [u8]) -> (r: Option<(RoaIpAddress, &'a [u8])>)
    ensures
        match r {
            Some((address, rest)) => roa_ip_address(s@) == Some((address, rest@)),
            None => roa_ip_address(s@) is None,
        },
{
    let (contents, rest) = match read_element_of(s, TAG_SEQUENCE) {
        Some(found) => found,
        None => return None,
    };
    let (first, after) = match read_element_of(contents, TAG_BIT_STRING) {
        Some(found) => found,
        None => return None,
    };
    let address = match read_bit_string(first) {
        Some(found) => found,
        None => return None,
    };
    if after.len() == 0 {
        return Some((RoaIpAddress { address, max_length: None }, rest));
    }
    let (second, end) = match read_element_of(after, TAG_INTEGER) {
        Some(found) => found,
        None => return None,
    };
    let l = match read_unsigned_integer(second, 128) {
        Some(found) => found,
        None => return None,
    };
    if end.len() != 0 {
        return None;
    }
    Some((RoaIpAddress { address, max_length: Some(l as u8) }, rest))
}

/// Reads the `ROAIPAddress` values that `s` is made of.
fn read_roa_ip_addresses(s: &[u8]) -> (r: Option<Vec<RoaIpAddress>>)
    ensures
        match r {
            Some(addresses) => roa_ip_addresses(s@) == Some(addresses@),
            None => roa_ip_addresses(s@) is None,
        },
{
    let mut addresses: Vec<RoaIpAddress> = Vec::new();
    let mut rest: &[u8] = s;
    while rest.len() > 0
        invariant
            roa_ip_addresses(s@) == match roa_ip_addresses(rest@) {
                Some(others) => Some(addresses@ + others),
                None => None,
            },
        decreases rest@.len(),
    {
        match read_roa_ip_address(rest) {
            None => {
                return None;
            },
            Some((address, after)) => {
                proof {
                    match roa_ip_addresses(after@) {
                        Some(others) => {
                            assert(addresses@.push(address) + others =~= addresses@ + (seq![
                                address,
                            ] + others));
                        },
                        None => {},
                    }
                }
                addresses.push(address);
                rest = after;
            },
        }
    }
    proof {
        assert(addresses@ + Seq::<RoaIpAddress>::empty() =~= addresses@);
    }
    Some(addresses)
}

/// Reads the `ROAIPAddressFamily` at the start of `s`.
fn read_roa_ip_address_family<'a>(s: &'a [u8]) -> (r: Option<(RoaIpAddressFamily, &'a [u8])>)
    ensures
        match r {
            Some((family, rest)) => roa_ip_address_family(s@) == Some((family@, rest@)),
            None => roa_ip_address_family(s@) is None,
        },
{
    let (contents, rest) = match read_element_of(s, TAG_SEQUENCE) {
        Some(found) => found,
        None => return None,
    };
    let (first, after) = match read_element_of(contents, TAG_OCTET_STRING) {
        Some(found) => found,
        None => return None,
    };
    let (second, end) = match read_element_of(after, TAG_SEQUENCE) {
        Some(found) => found,
        None => return None,
    };
    let addresses = match read_roa_ip_addresses(second) {
        Some(found) => found,
        None => return None,
    };
    if first.len() != 2 || end.len() != 0 || addresses.len() < 1 {
        return None;
    }
    Some((RoaIpAddressFamily { address_family: (first[0], first[1]), addresses }, rest))
}

/// Reads the `ROAIPAddressFamily` values that `s` is made of.
fn read_roa_ip_address_families(s: &[u8]) -> (r: Option<Vec<RoaIpAddressFamily>>)
    ensures
        match r {
            Some(blocks) => roa_ip_address_families(s@) == Some(family_models(blocks@)),
            None => roa_ip_address_families(s@) is None,
        },
{
    let mut blocks: Vec<RoaIpAddressFamily> = Vec::new();
    let mut rest: &[u8] = s;
    proof {
        assert(family_models(blocks@) =~= Seq::<FamilyModel>::empty());
        match roa_ip_address_families(rest@) {
            Some(others) => {
                assert(family_models(blocks@) + others =~= others);
            },
            None => {},
        }
    }
    while rest.len() > 0
        invariant
            roa_ip_address_families(s@) == match roa_ip_address_families(rest@) {
                Some(others) => Some(family_models(blocks@) + others),
                None => None,
            },
        decreases rest@.len(),
    {
        match read_roa_ip_address_family(rest) {
            None => {
                return None;
            },
            Some((family, after)) => {
                proof {
                    assert(family_models(blocks@.push(family)) =~= family_models(blocks@).push(
                        family@,
                    ));
                    match roa_ip_address_families(after@) {
                        Some(others) => {
                            assert(family_models(blocks@).push(family@) + others =~= family_models(
                                blocks@,
                            ) + (seq![family@] + others));
                        },
                        None => {},
                    }
                }
                blocks.push(family);
                rest = after;
            },
        }
    }
    proof {
        assert(family_models(blocks@) + Seq::<FamilyModel>::empty() =~= family_models(blocks@));
    }
    Some(blocks)
}

/// Reads past the optional version at the start of the contents of a
/// `RouteOriginAttestation`.
fn skip_version<'a>(s: &'a [u8]) -> (r: Option<&'a [u8]>)
    ensures
        match r {
            Some(rest) => after_version(s@) == Some(rest@),
            None => after_version(s@) is None,
        },
{
    if s.len() > 0 && s[0] == TAG_CONTEXT_0 {
        let (version, rest) = match read_element_of(s, TAG_CONTEXT_0) {
            Some(found) => found,
            None => return None,
        };
        let (number, end) = match read_element_of(version, TAG_INTEGER) {
            Some(found) => found,
            None => return None,
        };
        if check_integer(number) && end.len() == 0 {
            Some(rest)
        } else {
            None
        }
    } else {
        Some(s)
    }
}

impl RouteOriginAttestation {
    /// Decodes a route origin attestation from its DER encoding.
    pub fn decode(bytes: &[u8]) -> (r: Result<RouteOriginAttestation, RoaError>)
        ensures
            match r {
                Ok(roa) => route_origin_attestation(bytes@) == Some(roa@),
                Err(e) => e == RoaError::DecodeError && route_origin_attestation(bytes@) is None,
            },
    {
        let (contents, rest) = match read_element_of(bytes, TAG_SEQUENCE) {
            Some(found) => found,
            None => return Err(RoaError::DecodeError),
        };
        let body = match skip_version(contents) {
            Some(found) => found,
            None => return Err(RoaError::DecodeError),
        };
        let (first, after) = match read_element_of(body, TAG_INTEGER) {
            Some(found) => found,
            None => return Err(RoaError::DecodeError),
        };
        let as_id = match read_unsigned_integer(first, 0xffff_ffff) {
            Some(found) => found,
            None => return Err(RoaError::DecodeError),
        };
        let (second, end) = match read_element_of(after, TAG_SEQUENCE) {
            Some(found) => found,
            None => return Err(RoaError::DecodeError),
        };
        let blocks = match read_roa_ip_address_families(second) {
            Some(found) => found,
            None => return Err(RoaError::DecodeError),
        };
        if rest.len() != 0 || end.len() != 0 || blocks.len() < 1 || blocks.len() > 2 {
            return Err(RoaError::DecodeError);
        }
        Ok(RouteOriginAttestation { as_id: as_id as u32, ip_addr_blocks: blocks })
    }
}

/// The address family that the two octets of an address family tag name:
/// `00 01` is IPv4 and `00 02` is IPv6.
pub open spec fn afi_of(tag: (u8, u8)) -> Option<Afi> {
    if tag.0 == 0 && tag.1 == 1 {
        Some(Afi::Ipv4)
    } else if tag.0 == 0 && tag.1 == 2 {
        Some(Afi::Ipv6)
    } else {
        None
    }
}

/// The address of family `afi` whose first bits are the first of `bits`.
pub open spec fn family_bits(afi: Afi, bits: u128) -> u128 {
    match afi {
        Afi::Ipv4 => bits >> 96,
        Afi::Ipv6 => bits,
    }
}

/// The prefix of family `afi` that a bit string stands for: the bits are the
/// first of the network address and their number is the length. There is
/// none where the family has no such length.
pub open spec fn address_prefix(afi: Afi, address: BitString) -> Option<PrefixModel> {
    if address.length <= afi.max_length() {
        Some(
            PrefixModel {
                afi,
                bits: network_bits(afi, family_bits(afi, address.bits), address.length),
                length: address.length,
            },
        )
    } else {
        None
    }
}

/// The maximum length of family `afi` that an address gives, if any. It is
/// refused where the family has no such length.
pub open spec fn address_max_length(afi: Afi, max_length: Option<u8>) -> Result<
    Option<u8>,
    RoaError,
> {
    match max_length {
        Some(l) => if l <= afi.max_length() {
            Ok(Some(l))
        } else {
            Err(RoaError::DecodeError)
        },
        None => Ok(None),
    }
}

/// The item that an address of a ROA stands for, under the address family of
/// its block, or why there is none: the family is unknown, the address or the
/// maximum length does not fit the family, or the maximum length is less than
/// the length of the prefix.
pub open spec fn address_record(afi: Option<Afi>, address: RoaIpAddress) -> Result<
    RangeModel,
    RoaError,
> {
    match afi {
        None => Err(RoaError::FormatError(FormatError::AddressFamily)),
        Some(afi) => match address_prefix(afi, address.address) {
            None => Err(RoaError::DecodeError),
            Some(prefix) => match address_max_length(afi, address.max_length) {
                Err(e) => Err(e),
                Ok(max_length) => make_record(prefix, max_length),
            },
        },
    }
}

/// The items that some addresses of one block stand for, in their order, or
/// the error of the first address that stands for none.
pub open spec fn family_records(afi: Option<Afi>, addresses: Seq<RoaIpAddress>) -> Result<
    Seq<RangeModel>,
    RoaError,
>
    decreases addresses.len(),
{
    if addresses.len() == 0 {
        Ok(Seq::empty())
    } else {
        match family_records(afi, addresses.drop_last()) {
            Err(e) => Err(e),
            Ok(records) => match address_record(afi, addresses.last()) {
                Err(e) => Err(e),
                Ok(record) => Ok(records.push(record)),
            },
        }
    }
}

/// The items that the blocks of a ROA stand for, block by block and address
/// by address, or the error of the first address that stands for none.
pub open spec fn roa_records(blocks: Seq<FamilyModel>) -> Result<Seq<RangeModel>, RoaError>
    decreases blocks.len(),
{
    if blocks.len() == 0 {
        Ok(Seq::empty())
    } else {
        match roa_records(blocks.drop_last()) {
            Err(e) => Err(e),
            Ok(records) => match family_records(
                afi_of(blocks.last().address_family),
                blocks.last().addresses,
            ) {
                Err(e) => Err(e),
                Ok(others) => Ok(records + others),
            },
        }
    }
}

impl RoaIpAddress {
    /// The prefix of family `afi` that the address stands for.
    pub fn address(&self, afi: Afi) -> (r: Result<Prefix, RoaError>)
        ensures
            match r {
                Ok(prefix) => address_prefix(afi, self.address) == Some(prefix@),
                Err(e) => e == RoaError::DecodeError && address_prefix(afi, self.address) is None,
            },
    {
        if self.address.length > afi.max_length() {
            return Err(RoaError::DecodeError);
        }
        let bits: u128 = match afi {
            Afi::Ipv4 => {
                let all: u128 = self.address.bits;
                assert(all >> 96 <= 0xffff_ffff) by (bit_vector);
                self.address.bits >> 96
            },
            Afi::Ipv6 => self.address.bits,
        };
        Ok(Prefix::new(afi, bits, self.address.length))
    }

    /// The maximum length that the address gives, if any, as one of family
    /// `afi`.
    pub fn max_length(&self, afi: Afi) -> (r: Result<Option<u8>, RoaError>)
        ensures
            r == address_max_length(afi, self.max_length),
    {
        match self.max_length {
            Some(l) => {
                if l <= afi.max_length() {
                    Ok(Some(l))
                } else {
                    Err(RoaError::DecodeError)
                }
            },
            None => Ok(None),
        }
    }

    /// The item that the address stands for in a block of the address family
    /// `afi`, where `afi` is `None` for a block whose family is unknown.
    pub fn prefix_range(&self, afi: Option<Afi>) -> (r: Result<RoaPrefixRange, RoaError>)
        ensures
            match r {
                Ok(range) => address_record(afi, *self) == Ok::<RangeModel, RoaError>(range@),
                Err(e) => address_record(afi, *self) == Err::<RangeModel, RoaError>(e),
            },
    {
        match afi {
            None => Err(RoaError::FormatError(FormatError::AddressFamily)),
            Some(afi) => {
                let prefix = match self.address(afi) {
                    Ok(prefix) => prefix,
                    Err(e) => return Err(e),
                };
                let max_length = match self.max_length(afi) {
                    Ok(max_length) => max_length,
                    Err(e) => return Err(e),
                };
                RoaPrefixRange::new(prefix, max_length)
            },
        }
    }
}

impl RoaIpAddressFamily {
    /// The address family that the block names.
    pub fn address_family(&self) -> (r: Result<Afi, RoaError>)
        ensures
            match r {
                Ok(afi) => afi_of(self.address_family) == Some(afi),
                Err(e) => e == RoaError::FormatError(FormatError::AddressFamily) && afi_of(
                    self.address_family,
                ) is None,
            },
    {
        if self.address_family.0 == 0 && self.address_family.1 == 1 {
            Ok(Afi::Ipv4)
        } else if self.address_family.0 == 0 && self.address_family.1 == 2 {
            Ok(Afi::Ipv6)
        } else {
            Err(RoaError::FormatError(FormatError::AddressFamily))
        }
    }

    /// The items that the addresses of the block stand for, in their order.
    /// The first address that stands for none ends the work with its error.
    pub fn prefix_ranges(&self) -> (r: Result<Vec<RoaPrefixRange>, RoaError>)
        ensures
            match r {
                Ok(ranges) => family_records(afi_of(self.address_family), self.addresses@) == Ok::<
                    Seq<RangeModel>,
                    RoaError,
                >(range_models(ranges@)),
                Err(e) => family_records(afi_of(self.address_family), self.addresses@) == Err::<
                    Seq<RangeModel>,
                    RoaError,
                >(e),
            },
    {
        let afi: Option<Afi> = match self.address_family() {
            Ok(afi) => Some(afi),
            Err(_) => None,
        };
        let mut ranges: Vec<RoaPrefixRange> = Vec::new();
        let mut i: usize = 0;
        proof {
            assert(range_models(ranges@) =~= Seq::<RangeModel>::empty());
            assert(self.addresses@.take(0) =~= Seq::<RoaIpAddress>::empty());
        }
        while i < self.addresses.len()
            invariant
                0 <= i <= self.addresses@.len(),
                afi == afi_of(self.address_family),
                family_records(afi, self.addresses@.take(i as int)) == Ok::<
                    Seq<RangeModel>,
                    RoaError,
                >(range_models(ranges@)),
            decreases self.addresses@.len() - i,
        {
            proof {
                assert(self.addresses@.take(i + 1).drop_last() =~= self.addresses@.take(i as int));
                assert(self.addresses@.take(i + 1).last() == self.addresses@[i as int]);
            }
            match self.addresses[i].prefix_range(afi) {
                Ok(range) => {
                    proof {
                        assert(range_models(ranges@.push(range)) =~= range_models(ranges@).push(
                            range@,
                        ));
                    }
                    ranges.push(range);
                },
                Err(e) => {
                    proof {
                        lemma_family_records_error(afi, self.addresses@, i + 1, e);
                    }
                    return Err(e);
                },
            }
            i += 1;
        }
        proof {
            assert(self.addresses@.take(self.addresses@.len() as int) =~= self.addresses@);
        }
        Ok(ranges)
    }
}

/// An error among the first `k` addresses of a block is the error of the
/// whole block.
proof fn lemma_family_records_error(
    afi: Option<Afi>,
    addresses: Seq<RoaIpAddress>,
    k: int,
    e: RoaError,
)
    requires
        0 <= k <= addresses.len(),
        family_records(afi, addresses.take(k)) == Err::<Seq<RangeModel>, RoaError>(e),
    ensures
        family_records(afi, addresses) == Err::<Seq<RangeModel>, RoaError>(e),
    decreases addresses.len() - k,
{
    if k == addresses.len() {
        assert(addresses.take(k) =~= addresses);
    } else {
        assert(addresses.take(k + 1).drop_last() =~= addresses.take(k));
        lemma_family_records_error(afi, addresses, k + 1, e);
    }
}

/// An error among the first `k` blocks of a ROA is the error of the ROA.
proof fn lemma_roa_records_error(blocks: Seq<FamilyModel>, k: int, e: RoaError)
    requires
        0 <= k <= blocks.len(),
        roa_records(blocks.take(k)) == Err::<Seq<RangeModel>, RoaError>(e),
    ensures
        roa_records(blocks) == Err::<Seq<RangeModel>, RoaError>(e),
    decreases blocks.len() - k,
{
    if k == blocks.len() {
        assert(blocks.take(k) =~= blocks);
    } else {
        assert(blocks.take(k + 1).drop_last() =~= blocks.take(k));
        lemma_roa_records_error(blocks, k + 1, e);
    }
}

impl RouteOriginAttestation {
    /// The items that the ROA lists, block by block and address by address.
    /// The first address that stands for none ends the work with its error.
    pub fn prefix_ranges(&self) -> (r: Result<Vec<RoaPrefixRange>, RoaError>)
        ensures
            match r {
                Ok(ranges) => roa_records(self@.ip_addr_blocks) == Ok::<Seq<RangeModel>, RoaError>(
                    range_models(ranges@),
                ),
                Err(e) => roa_records(self@.ip_addr_blocks) == Err::<Seq<RangeModel>, RoaError>(e),
            },
    {
        let ghost blocks = self@.ip_addr_blocks;
        let mut ranges: Vec<RoaPrefixRange> = Vec::new();
        let mut i: usize = 0;
        proof {
            assert(range_models(ranges@) =~= Seq::<RangeModel>::empty());
            assert(blocks.take(0) =~= Seq::<FamilyModel>::empty());
        }
        while i < self.ip_addr_blocks.len()
            invariant
                0 <= i <= self.ip_addr_blocks@.len(),
                blocks == family_models(self.ip_addr_blocks@),
                roa_records(blocks.take(i as int)) == Ok::<Seq<RangeModel>, RoaError>(
                    range_models(ranges@),
                ),
            decreases self.ip_addr_blocks@.len() - i,
        {
            proof {
                assert(blocks.take(i + 1).drop_last() =~= blocks.take(i as int));
                assert(blocks.take(i + 1).last() == self.ip_addr_blocks@[i as int]@);
            }
            match self.ip_addr_blocks[i].prefix_ranges() {
                Ok(mut others) => {
                    proof {
                        assert(range_models(ranges@ + others@) =~= range_models(ranges@)
                            + range_models(others@));
                    }
                    ranges.append(&mut others);
                },
                Err(e) => {
                    proof {
                        lemma_roa_records_error(blocks, i + 1, e);
                    }
                    return Err(e);
                },
            }
            i += 1;
        }
        proof {
            assert(blocks.take(blocks.len() as int) =~= blocks);
        }
        Ok(ranges)
    }
}

/// The prefix that a bit string stands for has the bits of the string as
/// the first bits of its network address, where the string holds zeros after
/// its bits, as every bit string does that is read from DER.
pub proof fn lemma_address_prefix_keeps_bits(afi: Afi, address: BitString)
    requires
        address.length <= afi.max_length(),
        low_bits_zero(address.bits, 128 - address.length),
    ensures
        address_prefix(afi, address) == Some(
            PrefixModel { afi, bits: family_bits(afi, address.bits), length: address.length },
        ),
        address_prefix(afi, address).unwrap().wf(),
{
    let bits: u128 = address.bits;
    let length: u8 = address.length;
    let host: u8 = (afi.max_length() - length) as u8;
    match afi {
        Afi::Ipv4 => {
            let short: u128 = bits >> 96;
            assert(short <= 0xffff_ffff) by (bit_vector)
                requires
                    short == bits >> 96,
            ;
            if length == 0 {
                assert(((bits >> 96u128) >> host) << host == bits >> 96u128) by (bit_vector)
                    requires
                        bits == 0,
                        host == 32,
                ;
            } else {
                let low: u128 = (128 - length) as u128;
                assert(((bits >> 96u128) >> host) << host == bits >> 96u128) by (bit_vector)
                    requires
                        host < 32,
                        low == 96 + host,
                        (bits >> low) << low == bits,
                ;
            }
        },
        Afi::Ipv6 => {
            if length == 128 {
                assert((bits >> host) << host == bits) by (bit_vector)
                    requires
                        host == 0,
                ;
            } else if length > 0 {
                let low: u128 = (128 - length) as u128;
                assert((bits >> host) << host == bits) by (bit_vector)
                    requires
                        host < 128,
                        low == host,
                        (bits >> low) << low == bits,
                ;
            }
        },
    }
}

/// The prefix of an address that is read from DER has the bits of its bit
/// string as the first bits of its network address.
pub proof fn lemma_read_address_keeps_bits(afi: Afi, contents: Seq<u8>)
    ensures
        bit_string(contents) matches Some(address) ==> (address.length <= afi.max_length()
            ==> address_prefix(afi, address) == Some(
            PrefixModel { afi, bits: family_bits(afi, address.bits), length: address.length },
        )),
{
    if let Some(address) = bit_string(contents) {
        lemma_bit_string_is_padded(contents);
        if address.length <= afi.max_length() {
            lemma_address_prefix_keeps_bits(afi, address);
        }
    }
}

} // verus!
