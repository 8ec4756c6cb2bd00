//! The CMS wrapping of a ROA, opened with `rasn` and `rasn_cms`.

use crate::econtent::{roa_records, route_origin_attestation, RouteOriginAttestation};
use crate::error::{FormatError, RoaError};
use crate::range::RangeModel;
use crate::ranges::{collected, RoaPrefixRanges};
use vstd::prelude::*;

verus! {

/// The object identifier of the CMS signed-data content type.
pub const CONTENT_SIGNED_DATA: [u32; 7] = [1, 2, 840, 113549, 1, 7, 2];

/// The object identifier of the route origin authorization content type.
pub const ID_CT_ROUTE_ORIGIN_AUTHZ: [u32; 9] = [1, 2, 840, 113549, 1, 9, 16, 1, 24];

/// What a CMS `ContentInfo` holds: the object identifier of its content type
/// and the octets of its content.
#[derive(Debug)]
pub struct RoaContentInfo {
    pub content_type: Vec<u32>,
    pub content: Vec<u8>,
}

/// What the `EncapsulatedContentInfo` of CMS signed data holds: the object
/// identifier of its content type and, where there is one, the octets of its
/// content.
#[derive(Debug)]
pub struct EncapsulatedContentInfo {
    pub content_type: Vec<u32>,
    pub content: Option<Vec<u8>>,
}

/// What `rasn::der::decode` reads from octets as a `rasn_cms::ContentInfo`:
/// the arcs of its content type and the octets of its content, or `None`
/// where it reads none.
pub uninterp spec fn decoded_content_info(bytes: Seq<u8>) -> Option<(Seq<u32>, Seq<u8>)>;

/// What `rasn::der::decode` reads from octets as a `rasn_cms::SignedData`:
/// the arcs of the content type of its encapsulated content, and the octets
/// of that content where it is there, or `None` where it reads none.
pub uninterp spec fn decoded_signed_data(bytes: Seq<u8>) -> Option<(Seq<u32>, Option<Seq<u8>>)>;

/// Calls `rasn::der::decode` for a `rasn_cms::ContentInfo` and hands on its
/// two fields. The result is named by `decoded_content_info`.
#[verifier::external_body]
fn decode_content_info(bytes: &[u8]) -> (r: Result<RoaContentInfo, rasn::error::DecodeError>)
    ensures
        match r {
            Ok(info) => decoded_content_info(bytes@) == Some((info.content_type@, info.content@)),
            Err(_) => decoded_content_info(bytes@) is None,
        },
{
    let info = rasn::der::decode::<rasn_cms::ContentInfo>(bytes)?;
    Ok(
        RoaContentInfo {
            content_type: info.content_type.to_vec(),
            content: info.content.as_bytes().to_vec(),
        },
    )
}

/// Calls `rasn::der::decode` for a `rasn_cms::SignedData` and hands on the
/// two fields of its encapsulated content. The result is named by
/// `decoded_signed_data`.
#[verifier::external_body]
fn decode_signed_data(bytes: &[u8]) -> (r: Result<
    EncapsulatedContentInfo,
    rasn::error::DecodeError,
>)
    ensures
        match r {
            Ok(info) => decoded_signed_data(bytes@) == Some(
                (
                    info.content_type@,
                    match info.content {
                        Some(content) => Some(content@),
                        None => None,
                    },
                ),
            ),
            Err(_) => decoded_signed_data(bytes@) is None,
        },
{
    let info = rasn::der::decode::<rasn_cms::SignedData>(bytes)?.encap_content_info;
    Ok(
        EncapsulatedContentInfo {
            content_type: info.content_type.to_vec(),
            content: info.content.map(|content| content.to_vec()),
        },
    )
}

/// Whether two object identifiers have the same arcs.
pub fn same_arcs(a: &[u32], b: &[u32]) -> (same: bool)
    ensures
        same == (a@ == b@),
{
    if a.len() != b.len() {
        return false;
    }
    let mut i: usize = 0;
    while i < a.len()
        invariant
            0 <= i <= a@.len(),
            a@.len() == b@.len(),
            forall|j: int| 0 <= j < i ==> a@[j] == b@[j],
        decreases a@.len() - i,
    {
        if a[i] != b[i] {
            return false;
        }
        i += 1;
    }
    assert(a@ =~= b@);
    true
}

/// The items of the ROA that is the encapsulated content of signed data, or
/// why there are none: the content type is not that of a ROA, there is no
/// content, the content is not the DER encoding of a route origin
/// attestation, or an address stands for no item.
pub open spec fn encapsulated_records(content_type: Seq<u32>, content: Option<Seq<u8>>) -> Result<
    Seq<RangeModel>,
    RoaError,
> {
    if content_type != ID_CT_ROUTE_ORIGIN_AUTHZ@ {
        Err(RoaError::FormatError(FormatError::RoaContentType))
    } else {
        match content {
            None => Err(RoaError::FormatError(FormatError::MissingContent)),
            Some(bytes) => match route_origin_attestation(bytes) {
                None => Err(RoaError::DecodeError),
                Some(roa) => roa_records(roa.ip_addr_blocks),
            },
        }
    }
}

/// The items of the ROA in a `ContentInfo` of the given content type and
/// content, or why there are none: the content type is not signed data, the
/// content is not read as signed data, or its encapsulated content holds
/// none.
pub open spec fn content_info_records(content_type: Seq<u32>, content: Seq<u8>) -> Result<
    Seq<RangeModel>,
    RoaError,
> {
    if content_type != CONTENT_SIGNED_DATA@ {
        Err(RoaError::FormatError(FormatError::SignedDataContentType))
    } else {
        match decoded_signed_data(content) {
            None => Err(RoaError::DecodeError),
            Some((content_type, content)) => encapsulated_records(content_type, content),
        }
    }
}

/// The items of the ROA in a signed object, or why there are none: the
/// octets are not read as a `ContentInfo`, or that holds none.
pub open spec fn roa_object_records(bytes: Seq<u8>) -> Result<Seq<RangeModel>, RoaError> {
    match decoded_content_info(bytes) {
        None => Err(RoaError::DecodeError),
        Some((content_type, content)) => content_info_records(content_type, content),
    }
}

impl RoaPrefixRanges {
    /// Reads the items of a ROA from its encapsulated content in signed
    /// data, and collects them into canonical order.
    pub fn from_encapsulated_content(info: &EncapsulatedContentInfo) -> (r: Result<
        RoaPrefixRanges,
        RoaError,
    >)
        ensures
            collected(
                r,
                encapsulated_records(
                    info.content_type@,
                    match info.content {
                        Some(content) => Some(content@),
                        None => None,
                    },
                ),
            ),
    {
        if !same_arcs(info.content_type.as_slice(), ID_CT_ROUTE_ORIGIN_AUTHZ.as_slice()) {
            return Err(RoaError::FormatError(FormatError::RoaContentType));
        }
        let roa = match &info.content {
            None => return Err(RoaError::FormatError(FormatError::MissingContent)),
            Some(bytes) => match RouteOriginAttestation::decode(bytes.as_slice()) {
                Ok(roa) => roa,
                Err(e) => return Err(e),
            },
        };
        match roa.prefix_ranges() {
            Ok(ranges) => Ok(RoaPrefixRanges::from_iter(ranges)),
            Err(e) => Err(e),
        }
    }

    /// Reads the items of a ROA from the `ContentInfo` that wraps it, and
    /// collects them into canonical order. Each step can end the work: the
    /// content type, the reading of the signed data, and what
    /// `from_encapsulated_content` asks of its content.
    pub fn try_from(value: &RoaContentInfo) -> (r: Result<RoaPrefixRanges, RoaError>)
        ensures
            collected(r, content_info_records(value.content_type@, value.content@)),
    {
        if !same_arcs(value.content_type.as_slice(), CONTENT_SIGNED_DATA.as_slice()) {
            return Err(RoaError::FormatError(FormatError::SignedDataContentType));
        }
        match decode_signed_data(value.content.as_slice()) {
            Err(_) => Err(RoaError::DecodeError),
            Ok(info) => RoaPrefixRanges::from_encapsulated_content(&info),
        }
    }

    /// Reads the items of a ROA from the octets of a signed object, and
    /// collects them into canonical order.
    pub fn from_roa(bytes: &[u8]) -> (r: Result<RoaPrefixRanges, RoaError>)
        ensures
            collected(r, roa_object_records(bytes@)),
    {
        match decode_content_info(bytes) {
            Err(_) => Err(RoaError::DecodeError),
            Ok(info) => RoaPrefixRanges::try_from(&info),
        }
    }
}

} // verus!
