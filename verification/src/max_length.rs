//! The maximum length that qualifies a prefix, and its order.

use core::cmp::Ordering;
use vstd::prelude::*;
use vstd::std_specs::cmp::{PartialEqSpecImpl, PartialOrdSpecImpl};

verus! {

/// What an item says about the longest prefix length it authorizes.
#[derive(Debug, Clone, Copy)]
pub enum MaxLength {
    /// No maximum length was given: it is the length of the prefix.
    ImplicitEqual,
    /// A maximum length was given and is the length of the prefix.
    ExplicitEqual,
    /// A maximum length greater than the length of the prefix.
    Explicit(u8),
}

impl MaxLength {
    /// The number by which maximum lengths are ordered: zero where the
    /// maximum length is the length of the prefix, however that was written,
    /// and one more than the maximum length otherwise.
    pub open spec fn rank(self) -> int {
        match self {
            MaxLength::ImplicitEqual | MaxLength::ExplicitEqual => 0,
            MaxLength::Explicit(l) => l + 1,
        }
    }

    /// The order of two maximum lengths: that of their ranks.
    pub open spec fn order(self, other: Self) -> Ordering {
        if self.rank() < other.rank() {
            Ordering::Less
        } else if self.rank() == other.rank() {
            Ordering::Equal
        } else {
            Ordering::Greater
        }
    }

    /// Compares two maximum lengths. `ImplicitEqual` and `ExplicitEqual` are
    /// equal to each other and less than every `Explicit`; two `Explicit`
    /// compare by their lengths.
    pub fn cmp(&self, other: &Self) -> (o: Ordering)
        ensures
            o == self.order(*other),
    {
        match (self, other) {
            (
                MaxLength::ImplicitEqual | MaxLength::ExplicitEqual,
                MaxLength::ImplicitEqual | MaxLength::ExplicitEqual,
            ) => Ordering::Equal,
            (MaxLength::ImplicitEqual | MaxLength::ExplicitEqual, MaxLength::Explicit(_)) => {
                Ordering::Less
            },
            (MaxLength::Explicit(_), MaxLength::ImplicitEqual | MaxLength::ExplicitEqual) => {
                Ordering::Greater
            },
            (MaxLength::Explicit(p), MaxLength::Explicit(q)) => {
                if *p < *q {
                    Ordering::Less
                } else if *p == *q {
                    Ordering::Equal
                } else {
                    Ordering::Greater
                }
            },
        }
    }

    /// Whether a maximum length was given that equals the length of the
    /// prefix.
    pub fn is_explicit_equal(&self) -> (b: bool)
        ensures
            b == (*self is ExplicitEqual),
    {
        match self {
            MaxLength::ExplicitEqual => true,
            _ => false,
        }
    }
}

/// `ImplicitEqual` and `ExplicitEqual` stand at the same place in the order,
/// before every `Explicit`; two `Explicit` stand as their lengths do.
pub proof fn lemma_max_length_order(l: u8, m: u8)
    ensures
        MaxLength::ImplicitEqual.order(MaxLength::ExplicitEqual) == Ordering::Equal,
        MaxLength::ExplicitEqual.order(MaxLength::ImplicitEqual) == Ordering::Equal,
        MaxLength::ImplicitEqual.order(MaxLength::Explicit(l)) == Ordering::Less,
        MaxLength::ExplicitEqual.order(MaxLength::Explicit(l)) == Ordering::Less,
        MaxLength::Explicit(l).order(MaxLength::ImplicitEqual) == Ordering::Greater,
        MaxLength::Explicit(l).order(MaxLength::ExplicitEqual) == Ordering::Greater,
        MaxLength::Explicit(l).order(MaxLength::Explicit(m)) == Ordering::Less <==> l < m,
        MaxLength::Explicit(l).order(MaxLength::Explicit(m)) == Ordering::Equal <==> l == m,
        MaxLength::Explicit(l).order(MaxLength::Explicit(m)) == Ordering::Greater <==> l > m,
{
}

impl PartialEq for MaxLength {
    /// Two maximum lengths are equal where neither comes before the other:
    /// `ImplicitEqual` equals `ExplicitEqual`.
    fn eq(&self, other: &Self) -> (b: bool) {
        match self.cmp(other) {
            Ordering::Equal => true,
            _ => false,
        }
    }
}

impl PartialEqSpecImpl for MaxLength {
    open spec fn obeys_eq_spec() -> bool {
        true
    }

    open spec fn eq_spec(&self, other: &Self) -> bool {
        self.order(*other) == Ordering::Equal
    }
}

impl Eq for MaxLength {

}

impl PartialOrd for MaxLength {
    /// The order of maximum lengths, which is total.
    fn partial_cmp(&self, other: &Self) -> (o: Option<Ordering>) {
        Some(self.cmp(other))
    }
}

impl PartialOrdSpecImpl for MaxLength {
    open spec fn obeys_partial_cmp_spec() -> bool {
        true
    }

    open spec fn partial_cmp_spec(&self, other: &Self) -> Option<Ordering> {
        Some(self.order(*other))
    }
}

} // verus!
