//! The canonical collection: items in canonical order, no two of them
//! equivalent, each with the place of an item of the input.

use crate::error::RoaError;
use crate::range::{
    lemma_order_total, lemma_order_transitive, range_models, RangeModel, RoaPrefixRange,
};
use vstd::prelude::*;

verus! {

/// The entries are in canonical order: the item of each comes before the
/// item of every later one. An entry is an item and the place of an item of
/// the input.
pub open spec fn strictly_sorted(entries: Seq<(RangeModel, usize)>) -> bool {
    forall|i: int, j: int|
        0 <= i < j < entries.len() ==> (#[trigger] entries[i]).0.precedes((#[trigger] entries[j]).0)
}

/// The entries after the item `key` of place `index` went in. Where an entry
/// holds an equivalent item, that entry keeps its item and takes the new
/// place; else the new item goes in where the order puts it.
pub open spec fn insert_entry(entries: Seq<(RangeModel, usize)>, key: RangeModel, index: usize) -> Seq<
    (RangeModel, usize),
>
    decreases entries.len(),
{
    if entries.len() == 0 {
        seq![(key, index)]
    } else if entries[0].0.precedes(key) {
        seq![entries[0]] + insert_entry(entries.skip(1), key, index)
    } else if entries[0].0.equivalent(key) {
        entries.update(0, (entries[0].0, index))
    } else {
        seq![(key, index)] + entries
    }
}

/// The canonical collection of some items: what is left when they go in one
/// after another, each with its place in the input, counted from 0.
pub open spec fn canonical(records: Seq<RangeModel>) -> Seq<(RangeModel, usize)>
    decreases records.len(),
{
    if records.len() == 0 {
        Seq::empty()
    } else {
        insert_entry(
            canonical(records.drop_last()),
            records.last(),
            (records.len() - 1) as usize,
        )
    }
}

/// What each of some entries holds.
pub open spec fn entry_models(entries: Seq<(RoaPrefixRange, usize)>) -> Seq<(RangeModel, usize)> {
    Seq::new(entries.len(), |i: int| (entries[i].0@, entries[i].1))
}

/// Going in keeps entries in order. What came before all of them and before
/// the new item comes before all of them afterwards.
pub proof fn lemma_insert_sorted(
    entries: Seq<(RangeModel, usize)>,
    key: RangeModel,
    index: usize,
    low: Option<RangeModel>,
)
    requires
        strictly_sorted(entries),
        low matches Some(l) ==> l.precedes(key) && forall|i: int|
            0 <= i < entries.len() ==> l.precedes((#[trigger] entries[i]).0),
    ensures
        strictly_sorted(insert_entry(entries, key, index)),
        low matches Some(l) ==> forall|i: int|
            0 <= i < insert_entry(entries, key, index).len() ==> l.precedes(
                (#[trigger] insert_entry(entries, key, index)[i]).0,
            ),
    decreases entries.len(),
{
    let out = insert_entry(entries, key, index);
    if entries.len() == 0 {
    } else if entries[0].0.precedes(key) {
        let rest = entries.skip(1);
        assert forall|i: int| 0 <= i < rest.len() implies entries[0].0.precedes(
            (#[trigger] rest[i]).0,
        ) by {
            assert(rest[i] == entries[i + 1]);
        }
        assert(strictly_sorted(rest)) by {
            assert forall|i: int, j: int| 0 <= i < j < rest.len() implies (#[trigger] rest[i]).0.precedes(
                (#[trigger] rest[j]).0,
            ) by {
                assert(rest[i] == entries[i + 1]);
                assert(rest[j] == entries[j + 1]);
            }
        }
        lemma_insert_sorted(rest, key, index, Some(entries[0].0));
        let tail = insert_entry(rest, key, index);
        assert(out == seq![entries[0]] + tail);
        assert forall|i: int, j: int| 0 <= i < j < out.len() implies (#[trigger] out[i]).0.precedes(
            (#[trigger] out[j]).0,
        ) by {
            assert(out[j] == tail[j - 1]);
            if i > 0 {
                assert(out[i] == tail[i - 1]);
            }
        }
        if let Some(l) = low {
            assert forall|i: int| 0 <= i < out.len() implies l.precedes((#[trigger] out[i]).0) by {
                if i > 0 {
                    assert(out[i] == tail[i - 1]);
                    lemma_order_transitive(l, entries[0].0, tail[i - 1].0);
                }
            }
        }
    } else if entries[0].0.equivalent(key) {
        assert forall|i: int, j: int| 0 <= i < j < out.len() implies (#[trigger] out[i]).0.precedes(
            (#[trigger] out[j]).0,
        ) by {
            assert(out[i].0 == entries[i].0);
            assert(out[j].0 == entries[j].0);
        }
        if let Some(l) = low {
            assert forall|i: int| 0 <= i < out.len() implies l.precedes((#[trigger] out[i]).0) by {
                assert(out[i].0 == entries[i].0);
            }
        }
    } else {
        lemma_order_total(entries[0].0, key);
        assert forall|i: int, j: int| 0 <= i < j < out.len() implies (#[trigger] out[i]).0.precedes(
            (#[trigger] out[j]).0,
        ) by {
            assert(out[j] == entries[j - 1]);
            if i > 0 {
                assert(out[i] == entries[i - 1]);
            } else {
                lemma_order_transitive(key, entries[0].0, entries[j - 1].0);
            }
        }
        if let Some(l) = low {
            assert forall|i: int| 0 <= i < out.len() implies l.precedes((#[trigger] out[i]).0) by {
                if i > 0 {
                    assert(out[i] == entries[i - 1]);
                }
            }
        }
    }
}

/// The canonical collection is in order, so no two of its items are
/// equivalent.
pub proof fn lemma_canonical_sorted(records: Seq<RangeModel>)
    ensures
        strictly_sorted(canonical(records)),
    decreases records.len(),
{
    if records.len() > 0 {
        lemma_canonical_sorted(records.drop_last());
        lemma_insert_sorted(
            canonical(records.drop_last()),
            records.last(),
            (records.len() - 1) as usize,
            None,
        );
    }
}

/// Where the first `p` entries come before `key` and the next one does not,
/// `key` goes in at `p`.
pub proof fn lemma_insert_at(entries: Seq<(RangeModel, usize)>, key: RangeModel, index: usize, p: int)
    requires
        0 <= p <= entries.len(),
        forall|i: int| 0 <= i < p ==> (#[trigger] entries[i]).0.precedes(key),
        p < entries.len() ==> !entries[p].0.precedes(key),
    ensures
        insert_entry(entries, key, index) == if p < entries.len() && entries[p].0.equivalent(key) {
            entries.update(p, (entries[p].0, index))
        } else {
            entries.insert(p, (key, index))
        },
    decreases p,
{
    if p == 0 {
        if entries.len() == 0 {
            assert(seq![(key, index)] =~= entries.insert(0, (key, index)));
        } else if !entries[0].0.equivalent(key) {
            assert(seq![(key, index)] + entries =~= entries.insert(0, (key, index)));
        }
    } else {
        let rest = entries.skip(1);
        assert(entries[0].0.precedes(key));
        assert forall|i: int| 0 <= i < p - 1 implies (#[trigger] rest[i]).0.precedes(key) by {
            assert(rest[i] == entries[i + 1]);
        }
        lemma_insert_at(rest, key, index, p - 1);
        if p < entries.len() && entries[p].0.equivalent(key) {
            assert(seq![entries[0]] + rest.update(p - 1, (rest[p - 1].0, index)) =~= entries.update(
                p,
                (entries[p].0, index),
            ));
        } else {
            assert(seq![entries[0]] + rest.insert(p - 1, (key, index)) =~= entries.insert(
                p,
                (key, index),
            ));
        }
    }
}

/// Puts an item with its place into the entries.
fn insert(entries: &mut Vec<(RoaPrefixRange, usize)>, key: RoaPrefixRange, index: usize)
    ensures
        entry_models(final(entries)@) == insert_entry(entry_models(old(entries)@), key@, index),
{
    let ghost before = entry_models(entries@);
    let mut p: usize = 0;
    let mut found: bool = false;
    while p < entries.len()
        invariant_except_break
            !found,
        invariant
            0 <= p <= entries@.len(),
            before == entry_models(entries@),
            forall|i: int| 0 <= i < p ==> (#[trigger] before[i]).0.precedes(key@),
        ensures
            0 <= p <= entries@.len(),
            before == entry_models(entries@),
            forall|i: int| 0 <= i < p ==> (#[trigger] before[i]).0.precedes(key@),
            p < entries@.len() ==> !before[p as int].0.precedes(key@),
            found == (p < entries@.len() && before[p as int].0.equivalent(key@)),
        decreases entries@.len() - p,
    {
        if entries[p].0 < key {
            p += 1;
        } else {
            found = entries[p].0 == key;
            break ;
        }
    }
    proof {
        lemma_insert_at(before, key@, index, p as int);
    }
    if found {
        let kept: RoaPrefixRange = entries[p].0;
        entries[p] = (kept, index);
        proof {
            assert(entry_models(entries@) =~= before.update(p as int, (before[p as int].0, index)));
        }
    } else {
        entries.insert(p, (key, index));
        proof {
            assert(entry_models(entries@) =~= before.insert(p as int, (key@, index)));
        }
    }
}

/// The items of a list of ROA IP address information in canonical order,
/// without equivalent items, each with a place in the list it was made from.
#[derive(Debug)]
pub struct RoaPrefixRanges {
    entries: Vec<(RoaPrefixRange, usize)>,
}

impl View for RoaPrefixRanges {
    type V = Seq<(RangeModel, usize)>;

    closed spec fn view(&self) -> Seq<(RangeModel, usize)> {
        entry_models(self.entries@)
    }
}

/// A canonical collection was made of the items `records`; or making the
/// items failed, and that error came back in place of a collection.
pub open spec fn collected(
    r: Result<RoaPrefixRanges, RoaError>,
    records: Result<Seq<RangeModel>, RoaError>,
) -> bool {
    match records {
        Ok(records) => r matches Ok(ranges) && ranges@ == canonical(records),
        Err(e) => r matches Err(f) && f == e,
    }
}

impl RoaPrefixRanges {
    #[verifier::type_invariant]
    spec fn inv(self) -> bool {
        strictly_sorted(self@)
    }

    /// Collects items into canonical order. The place of an item is its
    /// position among `ranges`, counted from 0. Of equivalent items the first
    /// is kept, with the place of the last.
    pub fn from_iter(ranges: Vec<RoaPrefixRange>) -> (r: RoaPrefixRanges)
        ensures
            r@ == canonical(range_models(ranges@)),
            strictly_sorted(r@),
    {
        let ghost records = range_models(ranges@);
        let mut entries: Vec<(RoaPrefixRange, usize)> = Vec::new();
        let mut i: usize = 0;
        proof {
            assert(records.take(0) =~= Seq::<RangeModel>::empty());
            assert(entry_models(entries@) =~= Seq::<(RangeModel, usize)>::empty());
        }
        while i < ranges.len()
            invariant
                0 <= i <= ranges@.len(),
                records == range_models(ranges@),
                entry_models(entries@) == canonical(records.take(i as int)),
            decreases ranges@.len() - i,
        {
            proof {
                assert(records.take(i + 1).drop_last() =~= records.take(i as int));
                assert(records.take(i + 1).last() == ranges@[i as int]@);
            }
            insert(&mut entries, ranges[i], i);
            i += 1;
        }
        proof {
            assert(records.take(records.len() as int) =~= records);
            lemma_canonical_sorted(records);
        }
        RoaPrefixRanges { entries }
    }

    /// The entries in canonical order: each item with its place.
    pub fn into_entries(self) -> (entries: Vec<(RoaPrefixRange, usize)>)
        ensures
            entry_models(entries@) == self@,
            strictly_sorted(self@),
    {
        proof {
            use_type_invariant(&self);
        }
        self.entries
    }

    /// The entries in canonical order: each item with its place.
    pub fn entries(&self) -> (entries: &Vec<(RoaPrefixRange, usize)>)
        ensures
            entry_models(entries@) == self@,
            strictly_sorted(self@),
    {
        proof {
            use_type_invariant(self);
        }
        &self.entries
    }
}

} // verus!
