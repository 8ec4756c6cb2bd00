//! Canonical ordering and de-duplication of ROA IP address information.
//!
//! A Route Origin Authorization lists IP prefixes, each with an optional
//! maximum length. This crate reads such a list from text lines or from a
//! DER-encoded CMS signed object, puts it in canonical order without
//! duplicates, and reports whether the input already was in that form.

pub mod cms;
pub mod der;
pub mod econtent;
pub mod error;
pub mod input;
pub mod laws;
pub mod max_length;
pub mod outside;
pub mod prefix;
pub mod range;
pub mod ranges;
pub mod report;
pub mod text;
