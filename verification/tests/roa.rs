use roasort::cms::{
    same_arcs, EncapsulatedContentInfo, RoaContentInfo, CONTENT_SIGNED_DATA,
    ID_CT_ROUTE_ORIGIN_AUTHZ,
};
use roasort::der::BitString;
use roasort::econtent::{RoaIpAddress, RoaIpAddressFamily, RouteOriginAttestation};
use roasort::error::{FormatError, RoaError};
use roasort::max_length::MaxLength;
use roasort::prefix::Afi;
use roasort::ranges::RoaPrefixRanges;
use roasort::report::Failure;

fn tlv(tag: u8, contents: &[u8]) -> Vec<u8> {
    let mut out = vec![tag];
    let length = contents.len();
    if length < 0x80 {
        out.push(length as u8);
    } else {
        let octets: Vec<u8> =
            length.to_be_bytes().iter().copied().skip_while(|b| *b == 0).collect();
        out.push(0x80 + octets.len() as u8);
        out.extend(octets);
    }
    out.extend_from_slice(contents);
    out
}

fn sequence(parts: &[Vec<u8>]) -> Vec<u8> {
    tlv(0x30, &parts.concat())
}

fn integer(value: u64) -> Vec<u8> {
    let mut octets: Vec<u8> = value.to_be_bytes().iter().copied().skip_while(|b| *b == 0).collect();
    if octets.first().map_or(true, |b| *b >= 0x80) {
        octets.insert(0, 0);
    }
    tlv(0x02, &octets)
}

fn bit_string(octets: &[u8], length: usize) -> Vec<u8> {
    let used = (length + 7) / 8;
    let mut contents = vec![(used * 8 - length) as u8];
    contents.extend_from_slice(&octets[..used]);
    tlv(0x03, &contents)
}

fn address(octets: &[u8], length: usize, max_length: Option<u64>) -> Vec<u8> {
    let mut parts = vec![bit_string(octets, length)];
    if let Some(max_length) = max_length {
        parts.push(integer(max_length));
    }
    sequence(&parts)
}

fn family(tag: &[u8], addresses: &[Vec<u8>]) -> Vec<u8> {
    sequence(&[tlv(0x04, tag), sequence(addresses)])
}

fn attestation(as_id: u64, families: &[Vec<u8>]) -> Vec<u8> {
    sequence(&[integer(as_id), sequence(families)])
}

const IPV4: &[u8] = &[0, 1];
const IPV6: &[u8] = &[0, 2];

fn ordered_attestation() -> Vec<u8> {
    attestation(
        64496,
        &[
            family(
                IPV4,
                &[
                    address(&[10], 8, None),
                    address(&[10, 0, 0], 24, Some(26)),
                    address(&[192, 168, 100], 22, None),
                ],
            ),
            family(
                IPV6,
                &[
                    address(&[0x20, 0x01, 0x0d, 0xb8], 32, None),
                    address(&[0x20, 0x01, 0x0d, 0xb8, 0x0d, 0xb8], 48, Some(64)),
                ],
            ),
        ],
    )
}

fn mis_ordered_attestation() -> Vec<u8> {
    attestation(
        64496,
        &[
            family(
                IPV6,
                &[
                    address(&[0x20, 0x01, 0x0d, 0xb8, 0x0d, 0xb8], 48, None),
                    address(&[0x20, 0x01, 0x0d, 0xb8], 32, None),
                ],
            ),
            family(
                IPV4,
                &[
                    address(&[10, 0, 0], 24, None),
                    address(&[10, 0, 0], 24, Some(24)),
                    address(&[10], 8, None),
                ],
            ),
        ],
    )
}

fn object_identifier(arcs: &[u32]) -> rasn::types::ObjectIdentifier {
    rasn::types::ObjectIdentifier::new(arcs.to_vec()).unwrap()
}

fn signed_data(content_type: &[u32], content: Option<&[u8]>) -> Vec<u8> {
    let signed = rasn_cms::SignedData {
        version: rasn::types::Integer::from(3),
        digest_algorithms: rasn::types::SetOf::new(),
        encap_content_info: rasn_cms::EncapsulatedContentInfo {
            content_type: object_identifier(content_type),
            content: content.map(|octets| rasn::types::OctetString::from(octets.to_vec())),
        },
        certificates: None,
        crls: None,
        signer_infos: rasn::types::SetOf::new(),
    };
    rasn::der::encode(&signed).unwrap()
}

fn content_info(content_type: &[u32], content: &[u8]) -> Vec<u8> {
    let info = rasn_cms::ContentInfo {
        content_type: object_identifier(content_type),
        content: rasn::types::Any::new(content.to_vec()),
    };
    rasn::der::encode(&info).unwrap()
}

fn signed_object(econtent: &[u8]) -> Vec<u8> {
    content_info(
        &CONTENT_SIGNED_DATA,
        &signed_data(&ID_CT_ROUTE_ORIGIN_AUTHZ, Some(econtent)),
    )
}

fn listing(ranges: &RoaPrefixRanges) -> Vec<String> {
    ranges.report().lines
}

#[test]
fn object_identifiers() {
    let signed: &[u32] = rasn_cms::CONTENT_SIGNED_DATA;
    assert_eq!(&CONTENT_SIGNED_DATA[..], signed);
    assert_eq!(ID_CT_ROUTE_ORIGIN_AUTHZ, [1, 2, 840, 113_549, 1, 9, 16, 1, 24]);
    assert!(same_arcs(&CONTENT_SIGNED_DATA, &[1, 2, 840, 113_549, 1, 7, 2]));
    assert!(!same_arcs(&CONTENT_SIGNED_DATA, &ID_CT_ROUTE_ORIGIN_AUTHZ));
    assert!(!same_arcs(&CONTENT_SIGNED_DATA, &[1, 2, 840, 113_549, 1, 7]));
    assert!(!same_arcs(&CONTENT_SIGNED_DATA, &[1, 2, 840, 113_549, 1, 7, 3]));
    assert!(same_arcs(&[], &[]));
}

#[test]
fn decode_attestation() {
    let roa = RouteOriginAttestation::decode(&ordered_attestation()).unwrap();
    assert_eq!(roa.as_id, 64496);
    assert_eq!(roa.ip_addr_blocks.len(), 2);
    let first = &roa.ip_addr_blocks[0];
    assert_eq!(first.address_family, (0, 1));
    assert_eq!(first.address_family().unwrap(), Afi::Ipv4);
    assert_eq!(first.addresses.len(), 3);
    assert_eq!(first.addresses[0].address, BitString { bits: 10 << 120, length: 8 });
    assert_eq!(first.addresses[0].max_length, None);
    assert_eq!(first.addresses[1].address, BitString { bits: 10 << 120, length: 24 });
    assert_eq!(first.addresses[1].max_length, Some(26));
    assert_eq!(
        first.addresses[2].address,
        BitString { bits: 0xc0a8_6400 << 96, length: 22 }
    );
    let second = &roa.ip_addr_blocks[1];
    assert_eq!(second.address_family, (0, 2));
    assert_eq!(second.address_family().unwrap(), Afi::Ipv6);
    assert_eq!(second.addresses.len(), 2);
    assert_eq!(
        second.addresses[1].address,
        BitString { bits: 0x2001_0db8_0db8 << 80, length: 48 }
    );
    assert_eq!(second.addresses[1].max_length, Some(64));

    let texts: Vec<String> =
        roa.prefix_ranges().unwrap().iter().map(|item| item.to_string()).collect();
    assert_eq!(
        texts,
        vec![
            "10.0.0.0/8",
            "10.0.0.0/24-26",
            "192.168.100.0/22",
            "2001:db8::/32",
            "2001:db8:db8::/48-64"
        ]
    );
}

#[test]
fn decode_attestation_with_version() {
    let version = tlv(0xa0, &integer(0));
    let bytes = sequence(&[
        version,
        integer(4_294_967_295),
        sequence(&[family(IPV4, &[address(&[10], 8, None)])]),
    ]);
    let roa = RouteOriginAttestation::decode(&bytes).unwrap();
    assert_eq!(roa.as_id, u32::MAX);
    assert_eq!(roa.ip_addr_blocks.len(), 1);

    let version = tlv(0xa0, &integer(1));
    let bytes = sequence(&[
        version,
        integer(0),
        sequence(&[family(IPV4, &[address(&[10], 8, None)])]),
    ]);
    assert_eq!(RouteOriginAttestation::decode(&bytes).unwrap().as_id, 0);
}

#[test]
fn decode_attestation_with_edge_lengths() {
    let bytes = attestation(
        1,
        &[
            family(IPV4, &[address(&[], 0, None), address(&[1, 2, 3, 4], 32, Some(32))]),
            family(IPV6, &[address(&[], 0, Some(128)), address(&[0xff; 16], 128, None)]),
        ],
    );
    let roa = RouteOriginAttestation::decode(&bytes).unwrap();
    let texts: Vec<String> =
        roa.prefix_ranges().unwrap().iter().map(|item| item.to_string()).collect();
    assert_eq!(
        texts,
        vec![
            "0.0.0.0/0",
            "1.2.3.4/32",
            "::/0-128",
            "ffff:ffff:ffff:ffff:ffff:ffff:ffff:ffff/128"
        ]
    );
}

#[test]
fn attestation_that_is_not_der_of_the_structure() {
    let good_family = family(IPV4, &[address(&[10], 8, None)]);
    let cases: Vec<Vec<u8>> = vec![
        Vec::new(),
        vec![0x30],
        // not a SEQUENCE
        tlv(0x31, &[integer(1), sequence(&[good_family.clone()])].concat()),
        // no autonomous system
        sequence(&[sequence(&[good_family.clone()])]),
        // autonomous system out of range
        attestation(4_294_967_296, &[good_family.clone()]),
        // autonomous system with a leading zero octet
        sequence(&[tlv(0x02, &[0x00, 0x01]), sequence(&[good_family.clone()])]),
        // negative autonomous system
        sequence(&[tlv(0x02, &[0xff]), sequence(&[good_family.clone()])]),
        // no address family
        attestation(1, &[]),
        // three address families
        attestation(1, &[good_family.clone(), good_family.clone(), good_family.clone()]),
        // something after the address families
        sequence(&[integer(1), sequence(&[good_family.clone()]), integer(2)]),
        // something after the attestation
        [attestation(1, &[good_family.clone()]), vec![0x00]].concat(),
        // a version that holds no INTEGER
        sequence(&[tlv(0xa0, &tlv(0x04, &[0])), integer(1), sequence(&[good_family.clone()])]),
        // a version that holds two values
        sequence(&[
            tlv(0xa0, &[integer(0), integer(0)].concat()),
            integer(1),
            sequence(&[good_family.clone()]),
        ]),
        // an address family tag of three octets
        attestation(1, &[family(&[0, 1, 1], &[address(&[10], 8, None)])]),
        // an address family tag of one octet
        attestation(1, &[family(&[1], &[address(&[10], 8, None)])]),
        // an address family without addresses
        attestation(1, &[family(IPV4, &[])]),
        // a maximum length above 128
        attestation(1, &[family(IPV6, &[address(&[0x20], 8, Some(129))])]),
        // a bit string of more than 128 bits
        attestation(1, &[family(IPV6, &[address(&[0; 17], 129, None)])]),
        // a bit string with unused bits that are not zero
        attestation(1, &[family(IPV4, &[sequence(&[tlv(0x03, &[0x04, 0x0a, 0x0f])])])]),
        // an address that holds something after the maximum length
        attestation(
            1,
            &[family(IPV4, &[sequence(&[bit_string(&[10], 8), integer(8), integer(8)])])],
        ),
        // an address without a prefix
        attestation(1, &[family(IPV4, &[sequence(&[integer(8)])])]),
        // an indefinite length
        vec![0x30, 0x80, 0x02, 0x01, 0x01, 0x30, 0x00, 0x00, 0x00],
        // cut short
        ordered_attestation()[..20].to_vec(),
    ];
    for bytes in cases {
        assert_eq!(
            RouteOriginAttestation::decode(&bytes).unwrap_err(),
            RoaError::DecodeError,
            "{bytes:02x?}"
        );
    }
}

#[test]
fn address_family_tags() {
    let block = |tag| RoaIpAddressFamily { address_family: tag, addresses: Vec::new() };
    assert_eq!(block((0, 1)).address_family(), Ok(Afi::Ipv4));
    assert_eq!(block((0, 2)).address_family(), Ok(Afi::Ipv6));
    for tag in [(0, 0), (0, 3), (1, 1), (1, 2), (2, 0), (255, 255)] {
        assert_eq!(
            block(tag).address_family(),
            Err(RoaError::FormatError(FormatError::AddressFamily))
        );
    }
}

#[test]
fn addresses_become_prefixes() {
    let address =
        RoaIpAddress { address: BitString { bits: 0x0a01_0203 << 96, length: 16 }, max_length: None };
    let prefix = address.address(Afi::Ipv4).unwrap();
    assert_eq!(prefix.afi(), Afi::Ipv4);
    assert_eq!(prefix.bits(), 0x0a01_0000);
    assert_eq!(prefix.length(), 16);
    let prefix = address.address(Afi::Ipv6).unwrap();
    assert_eq!(prefix.afi(), Afi::Ipv6);
    assert_eq!(prefix.bits(), 0x0a01 << 112);
    assert_eq!(prefix.length(), 16);

    let long = RoaIpAddress { address: BitString { bits: 0, length: 33 }, max_length: None };
    assert_eq!(long.address(Afi::Ipv4).unwrap_err(), RoaError::DecodeError);
    assert_eq!(long.address(Afi::Ipv6).unwrap().length(), 33);
    let full = RoaIpAddress { address: BitString { bits: 0, length: 32 }, max_length: None };
    assert_eq!(full.address(Afi::Ipv4).unwrap().length(), 32);
}

#[test]
fn max_lengths_fit_the_family() {
    let with = |max_length| RoaIpAddress { address: BitString { bits: 0, length: 0 }, max_length };
    assert_eq!(with(None).max_length(Afi::Ipv4), Ok(None));
    assert_eq!(with(Some(0)).max_length(Afi::Ipv4), Ok(Some(0)));
    assert_eq!(with(Some(32)).max_length(Afi::Ipv4), Ok(Some(32)));
    assert_eq!(with(Some(33)).max_length(Afi::Ipv4), Err(RoaError::DecodeError));
    assert_eq!(with(Some(33)).max_length(Afi::Ipv6), Ok(Some(33)));
    assert_eq!(with(Some(128)).max_length(Afi::Ipv6), Ok(Some(128)));
    assert_eq!(with(Some(129)).max_length(Afi::Ipv6), Err(RoaError::DecodeError));
}

#[test]
fn items_of_an_address() {
    let address =
        RoaIpAddress { address: BitString { bits: 10 << 120, length: 8 }, max_length: Some(8) };
    let item = address.prefix_range(Some(Afi::Ipv4)).unwrap();
    assert!(matches!(item.max_length(), MaxLength::ExplicitEqual));
    assert_eq!(item.to_string(), "10.0.0.0/8");
    assert_eq!(address.prefix_range(Some(Afi::Ipv6)).unwrap().to_string(), "a00::/8");
    assert_eq!(
        address.prefix_range(None).unwrap_err(),
        RoaError::FormatError(FormatError::AddressFamily)
    );
    let short =
        RoaIpAddress { address: BitString { bits: 10 << 120, length: 8 }, max_length: Some(7) };
    assert_eq!(short.prefix_range(Some(Afi::Ipv4)).unwrap_err(), RoaError::InvalidRange);
    assert_eq!(short.prefix_range(Some(Afi::Ipv6)).unwrap_err(), RoaError::InvalidRange);
}

#[test]
fn first_bad_address_ends_the_work() {
    // an unknown family comes before a bad address in a later block
    let bytes = attestation(
        1,
        &[
            family(&[0, 3], &[address(&[10], 8, None)]),
            family(IPV4, &[address(&[10], 8, Some(7))]),
        ],
    );
    let roa = RouteOriginAttestation::decode(&bytes).unwrap();
    assert_eq!(
        roa.prefix_ranges().unwrap_err(),
        RoaError::FormatError(FormatError::AddressFamily)
    );
    // a short maximum length comes before an unknown family in a later block
    let bytes = attestation(
        1,
        &[
            family(IPV4, &[address(&[10], 8, None), address(&[10], 8, Some(7))]),
            family(&[0, 3], &[address(&[10], 8, None)]),
        ],
    );
    let roa = RouteOriginAttestation::decode(&bytes).unwrap();
    assert_eq!(roa.prefix_ranges().unwrap_err(), RoaError::InvalidRange);
    // an IPv4 address of more than 32 bits
    let bytes = attestation(1, &[family(IPV4, &[address(&[10, 0, 0, 0, 0], 40, None)])]);
    let roa = RouteOriginAttestation::decode(&bytes).unwrap();
    assert_eq!(roa.prefix_ranges().unwrap_err(), RoaError::DecodeError);
    // an IPv4 maximum length above 32
    let bytes = attestation(1, &[family(IPV4, &[address(&[10], 8, Some(33))])]);
    let roa = RouteOriginAttestation::decode(&bytes).unwrap();
    assert_eq!(roa.prefix_ranges().unwrap_err(), RoaError::DecodeError);
}

#[test]
fn well_ordered_roa() {
    let ranges = RoaPrefixRanges::from_roa(&signed_object(&ordered_attestation())).unwrap();
    let report = ranges.report();
    assert_eq!(
        report.lines,
        vec![
            "10.0.0.0/8",
            "10.0.0.0/24-26",
            "192.168.100.0/22",
            "2001:db8::/32",
            "2001:db8:db8::/48-64"
        ]
    );
    assert!(report.is_canonical());
    assert_eq!(report.failure, None);
    let places: Vec<usize> = ranges.entries().iter().map(|(_, place)| *place).collect();
    assert_eq!(places, vec![0, 1, 2, 3, 4]);
}

#[test]
fn mis_ordered_roa() {
    let ranges = RoaPrefixRanges::from_roa(&signed_object(&mis_ordered_attestation())).unwrap();
    assert_eq!(
        listing(&ranges),
        vec!["10.0.0.0/8", "10.0.0.0/24", "2001:db8::/32", "2001:db8:db8::/48"]
    );
    let report = ranges.report();
    assert!(report.mis_ordered);
    assert!(!report.unnecessary_max_length);
    assert_eq!(report.failure, Some(Failure::MisOrdered));
    let places: Vec<usize> = ranges.entries().iter().map(|(_, place)| *place).collect();
    assert_eq!(places, vec![4, 3, 1, 0]);
}

#[test]
fn text_and_roa_agree() {
    let from_roa = RoaPrefixRanges::from_roa(&signed_object(&ordered_attestation())).unwrap();
    let lines = vec![
        "10.0.0.0/8",
        "10.0.0.0/24-26",
        "192.168.100.0/22",
        "2001:db8::/32",
        "2001:db8:db8::/48-64",
    ];
    let from_text = RoaPrefixRanges::from_text(&lines).unwrap();
    assert_eq!(listing(&from_roa), listing(&from_text));
    assert_eq!(listing(&from_text), lines);
    for (a, b) in from_roa.entries().iter().zip(from_text.entries()) {
        assert!(a.0 == b.0);
        assert_eq!(a.1, b.1);
    }
}

#[test]
fn wrong_content_type_is_a_format_error() {
    let data = [1, 2, 840, 113_549, 1, 7, 1];
    let object = content_info(&data, &signed_data(&ID_CT_ROUTE_ORIGIN_AUTHZ, Some(&ordered_attestation())));
    assert_eq!(
        RoaPrefixRanges::from_roa(&object).unwrap_err(),
        RoaError::FormatError(FormatError::SignedDataContentType)
    );
    // the content is not looked at
    let object = content_info(&data, &[0x05, 0x00]);
    assert_eq!(
        RoaPrefixRanges::from_roa(&object).unwrap_err(),
        RoaError::FormatError(FormatError::SignedDataContentType)
    );
}

#[test]
fn wrong_encapsulated_content_type_is_a_format_error() {
    let object = content_info(
        &CONTENT_SIGNED_DATA,
        &signed_data(&[1, 2, 840, 113_549, 1, 9, 16, 1, 26], Some(&ordered_attestation())),
    );
    assert_eq!(
        RoaPrefixRanges::from_roa(&object).unwrap_err(),
        RoaError::FormatError(FormatError::RoaContentType)
    );
    // the content type is looked at before the content
    let object = content_info(&CONTENT_SIGNED_DATA, &signed_data(&CONTENT_SIGNED_DATA, None));
    assert_eq!(
        RoaPrefixRanges::from_roa(&object).unwrap_err(),
        RoaError::FormatError(FormatError::RoaContentType)
    );
}

#[test]
fn missing_content_is_a_format_error() {
    let object = content_info(&CONTENT_SIGNED_DATA, &signed_data(&ID_CT_ROUTE_ORIGIN_AUTHZ, None));
    assert_eq!(
        RoaPrefixRanges::from_roa(&object).unwrap_err(),
        RoaError::FormatError(FormatError::MissingContent)
    );
}

#[test]
fn malformed_objects_are_decode_errors() {
    assert_eq!(RoaPrefixRanges::from_roa(&[]).unwrap_err(), RoaError::DecodeError);
    assert_eq!(RoaPrefixRanges::from_roa(&[0x30, 0x00]).unwrap_err(), RoaError::DecodeError);
    assert_eq!(RoaPrefixRanges::from_roa(b"10.0.0.0/8\n").unwrap_err(), RoaError::DecodeError);
    // content that is no signed data
    let object = content_info(&CONTENT_SIGNED_DATA, &ordered_attestation());
    assert_eq!(RoaPrefixRanges::from_roa(&object).unwrap_err(), RoaError::DecodeError);
    // encapsulated content that is no attestation
    let object = content_info(
        &CONTENT_SIGNED_DATA,
        &signed_data(&ID_CT_ROUTE_ORIGIN_AUTHZ, Some(&[0x30, 0x00])),
    );
    assert_eq!(RoaPrefixRanges::from_roa(&object).unwrap_err(), RoaError::DecodeError);
    // a cut object
    let object = signed_object(&ordered_attestation());
    assert_eq!(
        RoaPrefixRanges::from_roa(&object[..object.len() - 1]).unwrap_err(),
        RoaError::DecodeError
    );
}

#[test]
fn errors_of_the_addresses_come_through() {
    let bytes = attestation(1, &[family(&[0, 9], &[address(&[10], 8, None)])]);
    assert_eq!(
        RoaPrefixRanges::from_roa(&signed_object(&bytes)).unwrap_err(),
        RoaError::FormatError(FormatError::AddressFamily)
    );
    let bytes = attestation(1, &[family(IPV6, &[address(&[0x20, 0x01], 16, Some(15))])]);
    assert_eq!(
        RoaPrefixRanges::from_roa(&signed_object(&bytes)).unwrap_err(),
        RoaError::InvalidRange
    );
}

#[test]
fn from_decoded_parts() {
    let info = RoaContentInfo {
        content_type: CONTENT_SIGNED_DATA.to_vec(),
        content: signed_data(&ID_CT_ROUTE_ORIGIN_AUTHZ, Some(&mis_ordered_attestation())),
    };
    let ranges = RoaPrefixRanges::try_from(&info).unwrap();
    assert_eq!(
        listing(&ranges),
        vec!["10.0.0.0/8", "10.0.0.0/24", "2001:db8::/32", "2001:db8:db8::/48"]
    );
    let info = RoaContentInfo {
        content_type: vec![1, 2, 840, 113_549, 1, 7, 3],
        content: signed_data(&ID_CT_ROUTE_ORIGIN_AUTHZ, Some(&ordered_attestation())),
    };
    assert_eq!(
        RoaPrefixRanges::try_from(&info).unwrap_err(),
        RoaError::FormatError(FormatError::SignedDataContentType)
    );

    let encapsulated = EncapsulatedContentInfo {
        content_type: ID_CT_ROUTE_ORIGIN_AUTHZ.to_vec(),
        content: Some(ordered_attestation()),
    };
    let ranges = RoaPrefixRanges::from_encapsulated_content(&encapsulated).unwrap();
    assert_eq!(listing(&ranges).len(), 5);
    let encapsulated =
        EncapsulatedContentInfo { content_type: ID_CT_ROUTE_ORIGIN_AUTHZ.to_vec(), content: None };
    assert_eq!(
        RoaPrefixRanges::from_encapsulated_content(&encapsulated).unwrap_err(),
        RoaError::FormatError(FormatError::MissingContent)
    );
    let encapsulated = EncapsulatedContentInfo {
        content_type: CONTENT_SIGNED_DATA.to_vec(),
        content: Some(ordered_attestation()),
    };
    assert_eq!(
        RoaPrefixRanges::from_encapsulated_content(&encapsulated).unwrap_err(),
        RoaError::FormatError(FormatError::RoaContentType)
    );
    let encapsulated = EncapsulatedContentInfo {
        content_type: ID_CT_ROUTE_ORIGIN_AUTHZ.to_vec(),
        content: Some(vec![0x30, 0x03, 0x02, 0x01]),
    };
    assert_eq!(
        RoaPrefixRanges::from_encapsulated_content(&encapsulated).unwrap_err(),
        RoaError::DecodeError
    );
}
