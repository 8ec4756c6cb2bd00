//! The errors of the decoders and of record construction.

use vstd::prelude::*;

verus! {

/// Why a structure that decoded as well-formed DER is still not accepted.
#[derive(Debug, Clone, Copy, PartialEq, Eq, Structural)]
pub enum FormatError {
    /// The outer content type is not the CMS signed-data type.
    SignedDataContentType,
    /// The encapsulated content type is not the route origin authorization
    /// type.
    RoaContentType,
    /// The signed data carries no encapsulated content.
    MissingContent,
    /// An address family tag is neither `00 01` nor `00 02`.
    AddressFamily,
}

/// The ways in which reading a list of ROA IP address information fails.
#[derive(Debug, Clone, Copy, PartialEq, Eq, Structural)]
pub enum RoaError {
    /// A text line is not `PREFIX` or `PREFIX-MAXLEN` with a maximum length
    /// that is a prefix length of the prefix's address family.
    ParseError,
    /// A maximum length is less than the length of its prefix.
    InvalidRange,
    /// The input bytes are not the DER encoding of the expected structure, or
    /// an address does not fit its address family.
    DecodeError,
    /// The decoded structure is not a ROA in CMS signed data.
    FormatError(FormatError),
}

impl FormatError {
    /// What the error says, as text.
    pub open spec fn text(self) -> Seq<char> {
        match self {
            FormatError::SignedDataContentType => "invalid OID for SignedData content"@,
            FormatError::RoaContentType => "invalid OID for ROA eContent"@,
            FormatError::MissingContent => "failed to extract eContent bytes"@,
            FormatError::AddressFamily => "invalid IP address family indicator"@,
        }
    }

    /// What the error says.
    pub fn message(&self) -> (message: &'static str)
        ensures
            message@ == self.text(),
    {
        match self {
            FormatError::SignedDataContentType => "invalid OID for SignedData content",
            FormatError::RoaContentType => "invalid OID for ROA eContent",
            FormatError::MissingContent => "failed to extract eContent bytes",
            FormatError::AddressFamily => "invalid IP address family indicator",
        }
    }
}

impl RoaError {
    /// What the error says, as text.
    pub open spec fn text(self) -> Seq<char> {
        match self {
            RoaError::ParseError => "failed to parse prefix or max_length"@,
            RoaError::InvalidRange => "got max_length less than prefix length"@,
            RoaError::DecodeError => "failed to decode"@,
            RoaError::FormatError(e) => e.text(),
        }
    }

    /// What the error says.
    pub fn message(&self) -> (message: &'static str)
        ensures
            message@ == self.text(),
    {
        match self {
            RoaError::ParseError => "failed to parse prefix or max_length",
            RoaError::InvalidRange => "got max_length less than prefix length",
            RoaError::DecodeError => "failed to decode",
            RoaError::FormatError(e) => e.message(),
        }
    }
}

} // verus!
