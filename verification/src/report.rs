//! What a canonical collection says about the list it was made from.

use crate::range::{RangeModel, RoaPrefixRange};
use crate::ranges::{entry_models, RoaPrefixRanges};
use crate::text::canonical_text;
use vstd::prelude::*;

verus! {

/// A fault of the list that a canonical collection was made from.
#[derive(Debug, Clone, Copy, PartialEq, Eq, Structural)]
pub enum Failure {
    /// The list was not in canonical order.
    MisOrdered,
    /// The item at this position of the canonical collection gives a maximum
    /// length that equals the length of its prefix.
    UnnecessaryMaxLength(usize),
}

/// The canonical listing and the faults of the list it was made from.
#[derive(Debug)]
pub struct Report {
    /// The canonical text of every item, in canonical order.
    pub lines: Vec<String>,
    /// An entry is not at the place of the input that it holds.
    pub mis_ordered: bool,
    /// An item gives a maximum length that equals the length of its prefix.
    pub unnecessary_max_length: bool,
    /// The fault found last on the way through the collection, if any.
    pub failure: Option<Failure>,
}

/// Some entry is not at the place of the input that it holds.
pub open spec fn mis_ordered(entries: Seq<(RangeModel, usize)>) -> bool {
    exists|i: int| 0 <= i < entries.len() && (#[trigger] entries[i]).1 != i
}

/// Some entry holds an item with a maximum length that was given and equals
/// the length of its prefix.
pub open spec fn has_unnecessary_max_length(entries: Seq<(RangeModel, usize)>) -> bool {
    exists|i: int| 0 <= i < entries.len() && (#[trigger] entries[i]).0.max_length is ExplicitEqual
}

/// The fault of the entry at position `i`, if it has one. An unnecessary
/// maximum length is named before a wrong place.
pub open spec fn failure_at(entries: Seq<(RangeModel, usize)>, i: int) -> Option<Failure> {
    if entries[i].0.max_length is ExplicitEqual {
        Some(Failure::UnnecessaryMaxLength(i as usize))
    } else if entries[i].1 != i {
        Some(Failure::MisOrdered)
    } else {
        None
    }
}

/// The fault of the last entry that has one.
pub open spec fn last_failure(entries: Seq<(RangeModel, usize)>) -> Option<Failure>
    decreases entries.len(),
{
    if entries.len() == 0 {
        None
    } else {
        match failure_at(entries, entries.len() - 1) {
            Some(failure) => Some(failure),
            None => last_failure(entries.drop_last()),
        }
    }
}

impl Report {
    /// Whether the list was in canonical order and without unnecessary
    /// maximum lengths.
    pub fn is_canonical(&self) -> (b: bool)
        ensures
            b == (!self.mis_ordered && !self.unnecessary_max_length),
    {
        !self.mis_ordered && !self.unnecessary_max_length
    }
}

impl RoaPrefixRanges {
    /// Goes through the collection in canonical order. Every item is
    /// listed, whatever faults are found.
    pub fn report(&self) -> (report: Report)
        ensures
            report.lines@.len() == self@.len(),
            forall|i: int|
                0 <= i < self@.len() ==> (#[trigger] report.lines@[i])@ == canonical_text(
                    self@[i].0,
                ),
            report.mis_ordered == mis_ordered(self@),
            report.unnecessary_max_length == has_unnecessary_max_length(self@),
            report.failure == last_failure(self@),
    {
        let entries = self.entries();
        let ghost models = entry_models(entries@);
        let mut lines: Vec<String> = Vec::new();
        let mut wrong_place: bool = false;
        let mut unnecessary: bool = false;
        let mut failure: Option<Failure> = None;
        let mut i: usize = 0;
        proof {
            assert(models.take(0) =~= Seq::<(RangeModel, usize)>::empty());
        }
        while i < entries.len()
            invariant
                0 <= i <= entries@.len(),
                models == entry_models(entries@),
                lines@.len() == i,
                forall|k: int|
                    0 <= k < i ==> (#[trigger] lines@[k])@ == canonical_text(models[k].0),
                wrong_place == mis_ordered(models.take(i as int)),
                unnecessary == has_unnecessary_max_length(models.take(i as int)),
                failure == last_failure(models.take(i as int)),
            decreases entries@.len() - i,
        {
            let item: RoaPrefixRange = entries[i].0;
            let place: usize = entries[i].1;
            let ghost before = models.take(i as int);
            let ghost after = models.take(i + 1);
            proof {
                assert(after.drop_last() =~= before);
                assert(after.last() == models[i as int]);
                assert(after[i as int] == models[i as int]);
                assert forall|k: int| 0 <= k < i implies after[k] == before[k] by {}
                if mis_ordered(before) {
                    let k = choose|k: int| 0 <= k < before.len() && (#[trigger] before[k]).1 != k;
                    assert(after[k] == before[k]);
                }
                if has_unnecessary_max_length(before) {
                    let k = choose|k: int|
                        0 <= k < before.len() && (#[trigger] before[k]).0.max_length
                            is ExplicitEqual;
                    assert(after[k] == before[k]);
                }
                if mis_ordered(after) {
                    let k = choose|k: int| 0 <= k < after.len() && (#[trigger] after[k]).1 != k;
                    if k < i {
                        assert(before[k] == after[k]);
                    }
                }
                if has_unnecessary_max_length(after) {
                    let k = choose|k: int|
                        0 <= k < after.len() && (#[trigger] after[k]).0.max_length
                            is ExplicitEqual;
                    if k < i {
                        assert(before[k] == after[k]);
                    }
                }
            }
            if place != i {
                wrong_place = true;
                failure = Some(Failure::MisOrdered);
            }
            if item.has_explicit_equal_max_length() {
                unnecessary = true;
                failure = Some(Failure::UnnecessaryMaxLength(i));
            }
            lines.push(item.to_string());
            i += 1;
        }
        proof {
            assert(models.take(entries@.len() as int) =~= models);
        }
        Report { lines, mis_ordered: wrong_place, unnecessary_max_length: unnecessary, failure }
    }
}

} // verus!
