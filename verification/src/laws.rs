//! What holds of the canonical collection and of its report, whatever the
//! input.

use crate::range::{lemma_order_total, lemma_order_transitive, RangeModel};
use crate::ranges::{
    canonical, insert_entry, lemma_canonical_sorted, lemma_insert_at, strictly_sorted,
};
use crate::report::{has_unnecessary_max_length, last_failure, mis_ordered};
use vstd::prelude::*;

verus! {

/// Each item comes before every later one.
pub open spec fn increasing(records: Seq<RangeModel>) -> bool {
    forall|i: int, j: int|
        0 <= i < j < records.len() ==> (#[trigger] records[i]).precedes(#[trigger] records[j])
}

/// Each item with its position.
pub open spec fn numbered(records: Seq<RangeModel>) -> Seq<(RangeModel, usize)> {
    Seq::new(records.len(), |i: int| (records[i], i as usize))
}

/// The item at position `l` is equivalent to `key`, and no later one is.
pub open spec fn is_last_equivalent(records: Seq<RangeModel>, key: RangeModel, l: int) -> bool {
    &&& 0 <= l < records.len()
    &&& records[l].equivalent(key)
    &&& forall|j: int| l < j < records.len() ==> !(#[trigger] records[j]).equivalent(key)
}

/// The item at position `f` is `key`, and no earlier one is equivalent to it.
pub open spec fn is_first_occurrence(records: Seq<RangeModel>, key: RangeModel, f: int) -> bool {
    &&& 0 <= f < records.len()
    &&& records[f] == key
    &&& forall|j: int| 0 <= j < f ==> !(#[trigger] records[j]).equivalent(key)
}

/// The entry holds the first of the items equivalent to it, as that one was
/// written, and the place of the last of them.
#[verifier::opaque]
pub open spec fn keeps_first_and_last(records: Seq<RangeModel>, entry: (RangeModel, usize)) -> bool {
    &&& is_last_equivalent(records, entry.0, entry.1 as int)
    &&& exists|f: int| is_first_occurrence(records, entry.0, f)
}

/// Some entry holds an item equivalent to `key`.
#[verifier::opaque]
pub open spec fn holds_equivalent(entries: Seq<(RangeModel, usize)>, key: RangeModel) -> bool {
    exists|i: int| 0 <= i < entries.len() && (#[trigger] entries[i]).0.equivalent(key)
}

/// The number of entries at the start that come before `key`.
pub open spec fn rank(entries: Seq<(RangeModel, usize)>, key: RangeModel) -> int
    decreases entries.len(),
{
    if entries.len() == 0 || !entries[0].0.precedes(key) {
        0
    } else {
        1 + rank(entries.skip(1), key)
    }
}

/// The entry at the rank of `key` is equivalent to it.
pub open spec fn is_held(entries: Seq<(RangeModel, usize)>, key: RangeModel) -> bool {
    rank(entries, key) < entries.len() && entries[rank(entries, key)].0.equivalent(key)
}

/// The rank of an item is where it goes in.
pub proof fn lemma_rank(entries: Seq<(RangeModel, usize)>, key: RangeModel)
    ensures
        0 <= rank(entries, key) <= entries.len(),
        forall|i: int| 0 <= i < rank(entries, key) ==> (#[trigger] entries[i]).0.precedes(key),
        rank(entries, key) < entries.len() ==> !entries[rank(entries, key)].0.precedes(key),
    decreases entries.len(),
{
    if entries.len() == 0 || !entries[0].0.precedes(key) {
    } else {
        let rest = entries.skip(1);
        lemma_rank(rest, key);
        assert forall|i: int| 0 <= i < rank(entries, key) implies (#[trigger] entries[i]).0.precedes(
            key,
        ) by {
            if i > 0 {
                assert(rest[i - 1] == entries[i]);
            }
        }
        if rank(entries, key) < entries.len() {
            assert(rest[rank(rest, key)] == entries[rank(entries, key)]);
        }
    }
}

/// In entries that are in order, only the entry at the rank of an item can
/// be equivalent to it.
pub proof fn lemma_equivalent_at_rank(
    entries: Seq<(RangeModel, usize)>,
    key: RangeModel,
    i: int,
)
    requires
        strictly_sorted(entries),
        0 <= i < entries.len(),
        entries[i].0.equivalent(key),
    ensures
        i == rank(entries, key),
{
    lemma_rank(entries, key);
    let p = rank(entries, key);
    lemma_order_total(entries[i].0, key);
    if i < p {
        assert(entries[i].0.precedes(key));
    } else if i > p {
        lemma_order_total(entries[p].0, key);
        lemma_order_total(entries[p].0, entries[i].0);
        lemma_order_transitive(entries[p].0, entries[i].0, key);
    }
}

/// No item: no entry, and nothing to report.
pub proof fn lemma_empty()
    ensures
        canonical(Seq::<RangeModel>::empty()) == Seq::<(RangeModel, usize)>::empty(),
        !mis_ordered(Seq::<(RangeModel, usize)>::empty()),
        !has_unnecessary_max_length(Seq::<(RangeModel, usize)>::empty()),
        last_failure(Seq::<(RangeModel, usize)>::empty()) is None,
{
}

/// Items that come in canonical order are the canonical collection, each at
/// its own place.
pub proof fn lemma_canonical_of_increasing(records: Seq<RangeModel>)
    requires
        increasing(records),
        records.len() <= usize::MAX,
    ensures
        canonical(records) == numbered(records),
    decreases records.len(),
{
    if records.len() == 0 {
        assert(canonical(records) =~= numbered(records));
    } else {
        let init = records.drop_last();
        assert(increasing(init)) by {
            assert forall|i: int, j: int| 0 <= i < j < init.len() implies (#[trigger] init[i]).precedes(
                #[trigger] init[j],
            ) by {
                assert(init[i] == records[i]);
                assert(init[j] == records[j]);
            }
        }
        lemma_canonical_of_increasing(init);
        let entries = numbered(init);
        let index = (records.len() - 1) as usize;
        assert forall|i: int| 0 <= i < entries.len() implies (#[trigger] entries[i]).0.precedes(
            records.last(),
        ) by {
            assert(entries[i].0 == records[i]);
        }
        lemma_insert_at(entries, records.last(), index, entries.len() as int);
        assert(entries.insert(entries.len() as int, (records.last(), index)) =~= numbered(records));
    }
}

/// An entry stays as it is when an item comes after the others that is not
/// equivalent to it.
proof fn lemma_keeps_other(init: Seq<RangeModel>, key: RangeModel, entry: (RangeModel, usize))
    requires
        keeps_first_and_last(init, entry),
        !entry.0.equivalent(key),
    ensures
        keeps_first_and_last(init.push(key), entry),
{
    reveal(keeps_first_and_last);
    let records = init.push(key);
    let f = choose|f: int| is_first_occurrence(init, entry.0, f);
    assert(records[f] == init[f]);
    assert forall|j: int| 0 <= j < f implies !(#[trigger] records[j]).equivalent(entry.0) by {
        assert(records[j] == init[j]);
    }
    assert(is_first_occurrence(records, entry.0, f));
    let l = entry.1 as int;
    assert(records[l] == init[l]);
    assert forall|j: int| l < j < records.len() implies !(#[trigger] records[j]).equivalent(
        entry.0,
    ) by {
        if j < init.len() {
            assert(records[j] == init[j]);
        } else {
            lemma_order_total(entry.0, key);
        }
    }
}

/// An entry takes the place of an item that comes after the others and is
/// equivalent to it, and keeps what it holds.
proof fn lemma_keeps_updated(init: Seq<RangeModel>, key: RangeModel, entry: (RangeModel, usize))
    requires
        keeps_first_and_last(init, entry),
        entry.0.equivalent(key),
        init.len() < usize::MAX,
    ensures
        keeps_first_and_last(init.push(key), (entry.0, init.len() as usize)),
{
    reveal(keeps_first_and_last);
    let records = init.push(key);
    let f = choose|f: int| is_first_occurrence(init, entry.0, f);
    assert(records[f] == init[f]);
    assert forall|j: int| 0 <= j < f implies !(#[trigger] records[j]).equivalent(entry.0) by {
        assert(records[j] == init[j]);
    }
    assert(is_first_occurrence(records, entry.0, f));
    lemma_order_total(entry.0, key);
    assert(records[init.len() as int] == key);
}

/// An item that comes after the others and is equivalent to none of them is
/// an entry of its own.
proof fn lemma_keeps_new(init: Seq<RangeModel>, key: RangeModel)
    requires
        forall|j: int| 0 <= j < init.len() ==> !(#[trigger] init[j]).equivalent(key),
        init.len() < usize::MAX,
    ensures
        keeps_first_and_last(init.push(key), (key, init.len() as usize)),
{
    reveal(keeps_first_and_last);
    let records = init.push(key);
    let n = init.len() as int;
    lemma_order_total(key, key);
    assert(records[n] == key);
    assert forall|j: int| 0 <= j < n implies !(#[trigger] records[j]).equivalent(key) by {
        assert(records[j] == init[j]);
    }
    assert(is_first_occurrence(records, key, n));
}

/// An item equivalent to no entry is equivalent to no item that has an
/// equivalent entry.
proof fn lemma_new_item(init: Seq<RangeModel>, key: RangeModel, entries: Seq<(RangeModel, usize)>)
    requires
        forall|j: int| 0 <= j < init.len() ==> holds_equivalent(entries, #[trigger] init[j]),
        forall|q: int| 0 <= q < entries.len() ==> !(#[trigger] entries[q]).0.equivalent(key),
    ensures
        forall|j: int| 0 <= j < init.len() ==> !(#[trigger] init[j]).equivalent(key),
{
    reveal(holds_equivalent);
    assert forall|j: int| 0 <= j < init.len() implies !(#[trigger] init[j]).equivalent(key) by {
        assert(holds_equivalent(entries, init[j]));
        let q = choose|q: int|
            0 <= q < entries.len() && (#[trigger] entries[q]).0.equivalent(init[j]);
        lemma_order_total(entries[q].0, init[j]);
        lemma_order_transitive(entries[q].0, init[j], key);
    }
}

/// Where an item goes in: at its rank, in place of the entry there if that
/// one is equivalent to it; no other entry is.
proof fn lemma_insert_shape(entries: Seq<(RangeModel, usize)>, key: RangeModel, index: usize)
    requires
        strictly_sorted(entries),
    ensures
        0 <= rank(entries, key) <= entries.len(),
        is_held(entries, key) ==> insert_entry(entries, key, index) == entries.update(
            rank(entries, key),
            (entries[rank(entries, key)].0, index),
        ),
        !is_held(entries, key) ==> insert_entry(entries, key, index) == entries.insert(
            rank(entries, key),
            (key, index),
        ),
        forall|q: int|
            0 <= q < entries.len() && !(is_held(entries, key) && q == rank(entries, key)) ==> !(
            #[trigger] entries[q]).0.equivalent(key),
{
    lemma_rank(entries, key);
    lemma_insert_at(entries, key, index, rank(entries, key));
    assert forall|q: int|
        0 <= q < entries.len() && !(is_held(entries, key) && q == rank(entries, key)) implies !(
    #[trigger] entries[q]).0.equivalent(key) by {
        if entries[q].0.equivalent(key) {
            lemma_equivalent_at_rank(entries, key, q);
        }
    }
}

/// The entries keep what they should when an item goes in.
proof fn lemma_insert_keeps(
    init: Seq<RangeModel>,
    key: RangeModel,
    entries: Seq<(RangeModel, usize)>,
    out: Seq<(RangeModel, usize)>,
    p: int,
    held: bool,
)
    requires
        init.len() < usize::MAX,
        0 <= p <= entries.len(),
        held ==> p < entries.len() && entries[p].0.equivalent(key),
        held ==> out == entries.update(p, (entries[p].0, init.len() as usize)),
        !held ==> out == entries.insert(p, (key, init.len() as usize)),
        forall|q: int|
            0 <= q < entries.len() && !(held && q == p) ==> !(#[trigger] entries[q]).0.equivalent(
                key,
            ),
        forall|i: int| 0 <= i < entries.len() ==> keeps_first_and_last(init, #[trigger] entries[i]),
        forall|j: int| 0 <= j < init.len() ==> holds_equivalent(entries, #[trigger] init[j]),
    ensures
        forall|i: int| 0 <= i < out.len() ==> keeps_first_and_last(init.push(key), #[trigger] out[i]),
{
    let records = init.push(key);
    if held {
        assert forall|i: int| 0 <= i < out.len() implies keeps_first_and_last(
            records,
            #[trigger] out[i],
        ) by {
            if i == p {
                lemma_keeps_updated(init, key, entries[p]);
            } else {
                assert(out[i] == entries[i]);
                lemma_keeps_other(init, key, entries[i]);
            }
        }
    } else {
        lemma_new_item(init, key, entries);
        assert forall|i: int| 0 <= i < out.len() implies keeps_first_and_last(
            records,
            #[trigger] out[i],
        ) by {
            if i == p {
                lemma_keeps_new(init, key);
            } else if i < p {
                assert(out[i] == entries[i]);
                lemma_keeps_other(init, key, entries[i]);
            } else {
                assert(out[i] == entries[i - 1]);
                lemma_keeps_other(init, key, entries[i - 1]);
            }
        }
    }
}

/// Every item has an equivalent entry when an item went in.
proof fn lemma_insert_holds(
    init: Seq<RangeModel>,
    key: RangeModel,
    entries: Seq<(RangeModel, usize)>,
    out: Seq<(RangeModel, usize)>,
    p: int,
    held: bool,
    index: usize,
)
    requires
        0 <= p <= entries.len(),
        held ==> p < entries.len() && entries[p].0.equivalent(key),
        held ==> out == entries.update(p, (entries[p].0, index)),
        !held ==> out == entries.insert(p, (key, index)),
        forall|j: int| 0 <= j < init.len() ==> holds_equivalent(entries, #[trigger] init[j]),
    ensures
        forall|j: int|
            0 <= j < init.push(key).len() ==> holds_equivalent(out, #[trigger] init.push(key)[j]),
{
    reveal(holds_equivalent);
    let records = init.push(key);
    assert forall|j: int| 0 <= j < records.len() implies holds_equivalent(
        out,
        #[trigger] records[j],
    ) by {
        if j < init.len() {
            assert(records[j] == init[j]);
            assert(holds_equivalent(entries, init[j]));
            let q = choose|q: int|
                0 <= q < entries.len() && (#[trigger] entries[q]).0.equivalent(init[j]);
            let i = if held || q < p {
                q
            } else {
                q + 1
            };
            assert(out[i].0 == entries[q].0);
        } else {
            lemma_order_total(key, key);
            if held {
                assert(out[p].0 == entries[p].0);
            } else {
                assert(out[p].0 == key);
            }
        }
    }
}

/// Every entry of the canonical collection keeps the first of the items
/// equivalent to it and the place of the last of them, and every item has an
/// equivalent entry.
pub proof fn lemma_canonical_entries(records: Seq<RangeModel>)
    requires
        records.len() <= usize::MAX,
    ensures
        strictly_sorted(canonical(records)),
        forall|i: int|
            0 <= i < canonical(records).len() ==> keeps_first_and_last(
                records,
                #[trigger] canonical(records)[i],
            ),
        forall|j: int|
            0 <= j < records.len() ==> holds_equivalent(canonical(records), #[trigger] records[j]),
    decreases records.len(),
{
    lemma_canonical_sorted(records);
    if records.len() > 0 {
        let init = records.drop_last();
        let key = records.last();
        let index = init.len() as usize;
        let entries = canonical(init);
        lemma_canonical_entries(init);
        lemma_insert_shape(entries, key, index);
        lemma_insert_keeps(
            init,
            key,
            entries,
            canonical(records),
            rank(entries, key),
            is_held(entries, key),
        );
        lemma_insert_holds(
            init,
            key,
            entries,
            canonical(records),
            rank(entries, key),
            is_held(entries, key),
            index,
        );
        assert(init.push(key) =~= records);
    }
}

/// The canonical collection finds no entry out of place exactly where the
/// items came in canonical order, each before the next.
pub proof fn lemma_in_order_iff_increasing(records: Seq<RangeModel>)
    requires
        records.len() <= usize::MAX,
    ensures
        !mis_ordered(canonical(records)) <==> increasing(records),
{
    reveal(holds_equivalent);
    reveal(keeps_first_and_last);
    let entries = canonical(records);
    if increasing(records) {
        lemma_canonical_of_increasing(records);
        assert(!mis_ordered(numbered(records)));
    }
    if !mis_ordered(entries) {
        lemma_canonical_entries(records);
        let n = records.len() as int;
        let m = entries.len() as int;
        assert forall|i: int| 0 <= i < m implies (#[trigger] entries[i]).1 == i by {}
        if m > 0 {
            assert(keeps_first_and_last(records, entries[m - 1]));
        }
        if n > 0 {
            assert(holds_equivalent(entries, records[n - 1]));
            let i = choose|i: int|
                0 <= i < entries.len() && (#[trigger] entries[i]).0.equivalent(records[n - 1]);
            assert(keeps_first_and_last(records, entries[i]));
            lemma_order_total(entries[i].0, records[n - 1]);
            assert(i == n - 1);
        }
        assert(m == n);
        assert forall|i: int, j: int| 0 <= i < j < records.len() implies (
        #[trigger] records[i]).precedes(#[trigger] records[j]) by {
            assert(keeps_first_and_last(records, entries[i]));
            assert(keeps_first_and_last(records, entries[j]));
            assert(entries[i].0.precedes(entries[j].0));
            lemma_order_total(records[i], entries[i].0);
            lemma_order_total(records[j], entries[j].0);
            lemma_order_transitive(records[i], entries[i].0, entries[j].0);
            lemma_order_transitive(records[i], entries[j].0, records[j]);
        }
    }
}

/// Of items that came in canonical order, the report names an unnecessary
/// maximum length exactly where one of the items gives one.
pub proof fn lemma_unnecessary_of_increasing(records: Seq<RangeModel>)
    requires
        increasing(records),
        records.len() <= usize::MAX,
    ensures
        has_unnecessary_max_length(canonical(records)) <==> exists|i: int|
            0 <= i < records.len() && (#[trigger] records[i]).max_length is ExplicitEqual,
{
    lemma_canonical_of_increasing(records);
    let entries = numbered(records);
    if has_unnecessary_max_length(entries) {
        let i = choose|i: int|
            0 <= i < entries.len() && (#[trigger] entries[i]).0.max_length is ExplicitEqual;
        assert(records[i].max_length is ExplicitEqual);
    }
    if exists|i: int| 0 <= i < records.len() && (#[trigger] records[i]).max_length is ExplicitEqual {
        let i = choose|i: int|
            0 <= i < records.len() && (#[trigger] records[i]).max_length is ExplicitEqual;
        assert(entries[i].0.max_length is ExplicitEqual);
    }
}

} // verus!
