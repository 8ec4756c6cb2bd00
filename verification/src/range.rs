//! ROA IP address information items: a prefix with its maximum length.

use crate::error::RoaError;
use crate::max_length::MaxLength;
use crate::prefix::{Afi, Prefix, PrefixModel};
use core::cmp::Ordering;
use vstd::prelude::*;
use vstd::std_specs::cmp::{PartialEqSpecImpl, PartialOrdSpecImpl};

verus! {

/// What an item is: a prefix and what was said of its maximum length.
pub struct RangeModel {
    pub prefix: PrefixModel,
    pub max_length: MaxLength,
}

impl RangeModel {
    /// The prefix is well formed, and a maximum length that is held is
    /// greater than the length of the prefix and is a length of its family.
    pub open spec fn wf(self) -> bool {
        &&& self.prefix.wf()
        &&& self.max_length matches MaxLength::Explicit(l) ==> self.prefix.length < l
            <= self.prefix.afi.max_length()
    }

    /// The canonical order of two items: IPv4 before IPv6; within a family by
    /// network address, then by prefix length, then by maximum length.
    pub open spec fn order(self, other: Self) -> Ordering {
        if self.prefix.afi.rank() < other.prefix.afi.rank() {
            Ordering::Less
        } else if self.prefix.afi.rank() > other.prefix.afi.rank() {
            Ordering::Greater
        } else if self.prefix.bits < other.prefix.bits {
            Ordering::Less
        } else if self.prefix.bits > other.prefix.bits {
            Ordering::Greater
        } else if self.prefix.length < other.prefix.length {
            Ordering::Less
        } else if self.prefix.length > other.prefix.length {
            Ordering::Greater
        } else {
            self.max_length.order(other.max_length)
        }
    }

    /// `self` comes before `other` in the canonical order.
    pub open spec fn precedes(self, other: Self) -> bool {
        self.order(other) == Ordering::Less
    }

    /// Neither item comes before the other. Such items need not be the same:
    /// one may hold `ImplicitEqual` where the other holds `ExplicitEqual`.
    pub open spec fn equivalent(self, other: Self) -> bool {
        self.order(other) == Ordering::Equal
    }
}

/// Of any two items exactly one holds: the first comes before the second,
/// they are equivalent, or the second comes before the first.
pub proof fn lemma_order_total(a: RangeModel, b: RangeModel)
    ensures
        a.precedes(b) || a.equivalent(b) || b.precedes(a),
        !(a.precedes(b) && a.equivalent(b)),
        !(a.precedes(b) && b.precedes(a)),
        !(a.equivalent(b) && b.precedes(a)),
        a.equivalent(b) == b.equivalent(a),
        a.equivalent(a),
{
}

/// The order is transitive: what comes before an item comes before what
/// that item comes before, and equivalent items stand in the same relations.
pub proof fn lemma_order_transitive(a: RangeModel, b: RangeModel, c: RangeModel)
    ensures
        a.precedes(b) && b.precedes(c) ==> a.precedes(c),
        a.equivalent(b) && b.precedes(c) ==> a.precedes(c),
        a.precedes(b) && b.equivalent(c) ==> a.precedes(c),
        a.equivalent(b) && b.equivalent(c) ==> a.equivalent(c),
{
}

/// Every IPv4 item comes before every IPv6 item.
pub proof fn lemma_ipv4_precedes_ipv6(a: RangeModel, b: RangeModel)
    requires
        a.prefix.afi == Afi::Ipv4,
        b.prefix.afi == Afi::Ipv6,
    ensures
        a.precedes(b),
{
}

/// Two items are equivalent exactly where they have the same prefix and
/// either both hold the same maximum length or neither holds one.
pub proof fn lemma_equivalent(a: RangeModel, b: RangeModel)
    ensures
        a.equivalent(b) <==> a.prefix == b.prefix && match (a.max_length, b.max_length) {
            (MaxLength::Explicit(l), MaxLength::Explicit(m)) => l == m,
            (MaxLength::Explicit(_), _) => false,
            (_, MaxLength::Explicit(_)) => false,
            _ => true,
        },
{
}

/// A maximum length is refused exactly where it is less than the length of
/// the prefix, whatever the address family, and the error is `InvalidRange`.
pub proof fn lemma_invalid_range(prefix: PrefixModel, max_length: Option<u8>)
    ensures
        make_record(prefix, max_length) is Err <==> (max_length matches Some(l) && l
            < prefix.length),
        make_record(prefix, max_length) matches Err(e) ==> e == RoaError::InvalidRange,
        make_record(prefix, max_length) matches Ok(range) ==> range.prefix == prefix,
{
}

/// An item made of a well-formed prefix and of a maximum length of the
/// prefix's address family is well formed.
pub proof fn lemma_make_record_wf(prefix: PrefixModel, max_length: Option<u8>)
    requires
        prefix.wf(),
        max_length matches Some(l) ==> l <= prefix.afi.max_length(),
    ensures
        make_record(prefix, max_length) matches Ok(range) ==> range.wf(),
{
}

/// The item made of a prefix and an optional maximum length, or the reason
/// why there is none.
pub open spec fn make_record(prefix: PrefixModel, max_length: Option<u8>) -> Result<
    RangeModel,
    RoaError,
> {
    match max_length {
        None => Ok(RangeModel { prefix, max_length: MaxLength::ImplicitEqual }),
        Some(l) => if l < prefix.length {
            Err(RoaError::InvalidRange)
        } else if l == prefix.length {
            Ok(RangeModel { prefix, max_length: MaxLength::ExplicitEqual })
        } else {
            Ok(RangeModel { prefix, max_length: MaxLength::Explicit(l) })
        },
    }
}

/// What each of some items is.
pub open spec fn range_models(ranges: Seq<RoaPrefixRange>) -> Seq<RangeModel> {
    Seq::new(ranges.len(), |i: int| ranges[i]@)
}

/// An item of ROA IP address information: a prefix, with or without a maximum
/// length.
#[derive(Debug, Clone, Copy)]
pub struct RoaPrefixRange {
    prefix: Prefix,
    max_length: MaxLength,
}

impl View for RoaPrefixRange {
    type V = RangeModel;

    closed spec fn view(&self) -> RangeModel {
        RangeModel { prefix: self.prefix@, max_length: self.max_length }
    }
}

impl RoaPrefixRange {
    #[verifier::type_invariant]
    spec fn inv(self) -> bool {
        self@.wf()
    }

    /// Makes an item of a prefix and an optional maximum length. A maximum
    /// length less than the length of the prefix is refused.
    pub fn new(prefix: Prefix, max_length: Option<u8>) -> (r: Result<RoaPrefixRange, RoaError>)
        requires
            max_length matches Some(l) ==> l <= prefix@.afi.max_length(),
        ensures
            match r {
                Ok(range) => make_record(prefix@, max_length) == Ok::<RangeModel, RoaError>(range@)
                    && range@.wf(),
                Err(e) => make_record(prefix@, max_length) == Err::<RangeModel, RoaError>(e),
            },
    {
        let length = prefix.length();
        match max_length {
            None => Ok(RoaPrefixRange { prefix, max_length: MaxLength::ImplicitEqual }),
            Some(l) => {
                if l < length {
                    Err(RoaError::InvalidRange)
                } else if l == length {
                    Ok(RoaPrefixRange { prefix, max_length: MaxLength::ExplicitEqual })
                } else {
                    Ok(RoaPrefixRange { prefix, max_length: MaxLength::Explicit(l) })
                }
            },
        }
    }

    /// The prefix of the item.
    pub fn prefix(&self) -> (p: Prefix)
        ensures
            p@ == self@.prefix,
            self@.wf(),
    {
        proof {
            use_type_invariant(self);
        }
        self.prefix
    }

    /// What the item says of its maximum length.
    pub fn max_length(&self) -> (m: MaxLength)
        ensures
            m == self@.max_length,
    {
        self.max_length
    }

    /// Whether the item gives a maximum length that equals the length of its
    /// prefix. This is a matter of how the item was written, not of its place
    /// in the order.
    pub fn has_explicit_equal_max_length(&self) -> (b: bool)
        ensures
            b == (self@.max_length is ExplicitEqual),
    {
        self.max_length.is_explicit_equal()
    }

    /// Compares two items in the canonical order.
    pub fn cmp(&self, other: &Self) -> (o: Ordering)
        ensures
            o == self@.order(other@),
    {
        match (self.prefix.afi(), other.prefix.afi()) {
            (Afi::Ipv4, Afi::Ipv6) => Ordering::Less,
            (Afi::Ipv6, Afi::Ipv4) => Ordering::Greater,
            _ => {
                if self.prefix.bits() < other.prefix.bits() {
                    Ordering::Less
                } else if self.prefix.bits() > other.prefix.bits() {
                    Ordering::Greater
                } else if self.prefix.length() < other.prefix.length() {
                    Ordering::Less
                } else if self.prefix.length() > other.prefix.length() {
                    Ordering::Greater
                } else {
                    self.max_length.cmp(&other.max_length)
                }
            },
        }
    }
}

impl PartialEq for RoaPrefixRange {
    /// Two items are equal where neither comes before the other.
    fn eq(&self, other: &Self) -> (b: bool) {
        match self.cmp(other) {
            Ordering::Equal => true,
            _ => false,
        }
    }
}

impl PartialEqSpecImpl for RoaPrefixRange {
    open spec fn obeys_eq_spec() -> bool {
        true
    }

    open spec fn eq_spec(&self, other: &Self) -> bool {
        self@.equivalent(other@)
    }
}

impl Eq for RoaPrefixRange {

}

impl PartialOrd for RoaPrefixRange {
    /// The canonical order, which is total.
    fn partial_cmp(&self, other: &Self) -> (o: Option<Ordering>) {
        Some(self.cmp(other))
    }
}

impl PartialOrdSpecImpl for RoaPrefixRange {
    open spec fn obeys_partial_cmp_spec() -> bool {
        true
    }

    open spec fn partial_cmp_spec(&self, other: &Self) -> Option<Ordering> {
        Some(self@.order(other@))
    }
}

} // verus!
