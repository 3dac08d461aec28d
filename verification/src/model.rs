//! Mathematical model of the ladder.
//!
//! A ladder is modelled as a sequence of `(price, queue)` pairs, the queue as
//! a sequence of `(size, meta)` entries. The two mutating operations are
//! modelled by recursive spec functions that walk the ladder from its tail
//! (the low-price end), exactly as the executable code does.

use vstd::prelude::*;

verus! {

/// Model of a whole ladder: a sequence of levels, each a price with its
/// queue of `(size, meta)` entries.
pub type LadderModel = Seq<(i32, Seq<(u32, u128)>)>;

/// The view of an executable level sequence: each level's queue becomes a `Seq`.
pub open spec fn levels_view(v: Seq<(i32, Vec<(u32, u128)>)>) -> LadderModel {
    v.map_values(|lvl: (i32, Vec<(u32, u128)>)| (lvl.0, lvl.1@))
}

/// Prices are strictly descending; this also rules out duplicate prices.
pub open spec fn ladder_sorted(s: LadderModel) -> bool {
    forall|i: int, j: int| 0 <= i < j < s.len() ==> s[i].0 > s[j].0
}

/// No level holds an empty queue.
pub open spec fn no_empty_levels(s: LadderModel) -> bool {
    forall|i: int| 0 <= i < s.len() ==> s[i].1.len() > 0
}

/// Every entry of the queue has a nonzero size.
pub open spec fn positive_sizes(q: Seq<(u32, u128)>) -> bool {
    forall|i: int| 0 <= i < q.len() ==> q[i].0 > 0
}

/// The ladder invariant: sorted, no empty levels, no zero-size entries.
pub open spec fn ladder_wf(s: LadderModel) -> bool {
    &&& ladder_sorted(s)
    &&& no_empty_levels(s)
    &&& forall|i: int| 0 <= i < s.len() ==> positive_sizes(#[trigger] s[i].1)
}

/// Some level of the ladder rests at this price.
pub open spec fn has_price(s: LadderModel, price: i32) -> bool {
    exists|j: int| 0 <= j < s.len() && s[j].0 == price
}

/// Total quantity resting in a queue.
pub open spec fn queue_total(q: Seq<(u32, u128)>) -> int
    decreases q.len(),
{
    if q.len() == 0 {
        0
    } else {
        queue_total(q.drop_last()) + q.last().0
    }
}

/// Total quantity resting in a ladder.
pub open spec fn ladder_total(s: LadderModel) -> int
    decreases s.len(),
{
    if s.len() == 0 {
        0
    } else {
        ladder_total(s.drop_last()) + queue_total(s.last().1)
    }
}

/// Insertion of one entry at its price: on a price match the entry is
/// appended to that level's queue; otherwise a fresh one-entry level is
/// placed where descending order is kept.
pub open spec fn spec_add(s: LadderModel, price: i32, entry: (u32, u128)) -> LadderModel
    decreases s.len(),
{
    if s.len() == 0 {
        seq![(price, seq![entry])]
    } else if s[0].0 > price {
        seq![s[0]] + spec_add(s.drop_first(), price, entry)
    } else if s[0].0 == price {
        seq![(price, s[0].1.push(entry))] + s.drop_first()
    } else {
        seq![(price, seq![entry])] + s
    }
}

/// On a sorted ladder, inserting at a price already present at index `i`
/// appends to that level's queue in place.
pub proof fn lemma_spec_add_at_match(s: LadderModel, price: i32, entry: (u32, u128), i: int)
    requires
        ladder_sorted(s),
        0 <= i < s.len(),
        s[i].0 == price,
    ensures
        spec_add(s, price, entry) == s.update(i, (price, s[i].1.push(entry))),
    decreases s.len(),
{
    if i == 0 {
        assert(spec_add(s, price, entry) =~= s.update(0, (price, s[0].1.push(entry))));
    } else {
        assert(s[0].0 > s[i].0);
        assert(ladder_sorted(s.drop_first())) by {
            assert forall|a: int, b: int|
                0 <= a < b < s.drop_first().len() implies s.drop_first()[a].0
                > s.drop_first()[b].0 by {
                assert(s.drop_first()[a] == s[a + 1]);
                assert(s.drop_first()[b] == s[b + 1]);
            }
        }
        lemma_spec_add_at_match(s.drop_first(), price, entry, i - 1);
        assert(s.drop_first()[i - 1] == s[i]);
        assert(spec_add(s, price, entry) =~= s.update(i, (price, s[i].1.push(entry))));
    }
}

/// Inserting at a price not present in the ladder places a fresh one-entry
/// level at the index that keeps descending order.
pub proof fn lemma_spec_add_at_insert(s: LadderModel, price: i32, entry: (u32, u128), i: int)
    requires
        0 <= i <= s.len(),
        forall|j: int| 0 <= j < i ==> s[j].0 > price,
        forall|j: int| i <= j < s.len() ==> s[j].0 < price,
    ensures
        spec_add(s, price, entry) == s.insert(i, (price, seq![entry])),
    decreases s.len(),
{
    if s.len() == 0 {
        assert(spec_add(s, price, entry) =~= s.insert(0, (price, seq![entry])));
    } else if i == 0 {
        assert(s[0].0 < price);
        assert(spec_add(s, price, entry) =~= s.insert(0, (price, seq![entry])));
    } else {
        assert(s[0].0 > price);
        assert forall|j: int| 0 <= j < i - 1 implies s.drop_first()[j].0 > price by {
            assert(s.drop_first()[j] == s[j + 1]);
        }
        assert forall|j: int|
            i - 1 <= j < s.drop_first().len() implies s.drop_first()[j].0 < price by {
            assert(s.drop_first()[j] == s[j + 1]);
        }
        lemma_spec_add_at_insert(s.drop_first(), price, entry, i - 1);
        assert(spec_add(s, price, entry) =~= s.insert(i, (price, seq![entry])));
    }
}

/// Draining a queue from its recent end (the back) until `left` is spent or
/// the queue is exhausted. Returns what remains, what was taken (in the
/// order it was drained, most recent first), and the unspent remainder of
/// `left`. At most one entry is split; its residual stays at the back.
pub open spec fn queue_split(q: Seq<(u32, u128)>, left: u32) -> (Seq<(u32, u128)>, Seq<(u32, u128)>, u32)
    decreases q.len(),
{
    if left == 0 || q.len() == 0 {
        (q, Seq::<(u32, u128)>::empty(), left)
    } else if q.last().0 <= left {
        let rest = queue_split(q.drop_last(), (left - q.last().0) as u32);
        (rest.0, seq![q.last()] + rest.1, rest.2)
    } else {
        (
            q.drop_last().push((((q.last().0 - left) as u32), q.last().1)),
            seq![(left, q.last().1)],
            0u32,
        )
    }
}

/// A drain that leaves entries behind has spent the whole request: the
/// remainder of a queue split is nonempty only when nothing is left to take.
pub proof fn lemma_queue_split_nonempty_rem(q: Seq<(u32, u128)>, left: u32)
    ensures
        queue_split(q, left).0.len() > 0 ==> queue_split(q, left).2 == 0,
    decreases q.len(),
{
    if left == 0 || q.len() == 0 {
    } else if q.last().0 <= left {
        lemma_queue_split_nonempty_rem(q.drop_last(), (left - q.last().0) as u32);
    }
}

/// Consuming up to `left` units from the tail (low-price end) of the ladder,
/// visiting only levels whose price does not exceed `price`. Returns what
/// remains of the ladder, the consumed levels in descending price order, and
/// the unspent remainder of `left`. A partially drained level stays as the
/// tail; a fully drained level is removed.
pub open spec fn ladder_split(s: LadderModel, price: i32, left: u32) -> (LadderModel, LadderModel, u32)
    decreases s.len(),
{
    if s.len() == 0 || s.last().0 > price || left == 0 {
        (s, Seq::<(i32, Seq<(u32, u128)>)>::empty(), left)
    } else {
        let q = queue_split(s.last().1, left);
        if q.0.len() != 0 {
            (s.drop_last().push((s.last().0, q.0)), seq![(s.last().0, q.1)], q.2)
        } else {
            let rest = ladder_split(s.drop_last(), price, q.2);
            (rest.0, rest.1 + seq![(s.last().0, q.1)], rest.2)
        }
    }
}

} // verus!
