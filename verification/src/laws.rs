//! Laws of the ladder, stated and proved over the model.

use vstd::prelude::*;
use crate::model::{
    LadderModel,
    ladder_sorted,
    no_empty_levels,
    positive_sizes,
    ladder_wf,
    spec_add,
    has_price,
    queue_total,
    ladder_total,
    queue_split,
    ladder_split,
};

verus! {

/// Every price in the ladder after an insertion is either the inserted
/// price or a price that was already present.
pub proof fn lemma_spec_add_prices(s: LadderModel, price: i32, entry: (u32, u128))
    ensures
        forall|k: int| 0 <= k < spec_add(s, price, entry).len()
            ==> spec_add(s, price, entry)[k].0 == price
                || has_price(s, #[trigger] spec_add(s, price, entry)[k].0),
    decreases s.len(),
{
    let r = spec_add(s, price, entry);
    if s.len() == 0 {
        assert forall|k: int| 0 <= k < r.len() implies r[k].0 == price || has_price(s, r[k].0) by {
            assert(r[k] == (price, seq![entry]));
        }
    } else if s[0].0 > price {
        lemma_spec_add_prices(s.drop_first(), price, entry);
        let rr = spec_add(s.drop_first(), price, entry);
        assert forall|k: int| 0 <= k < r.len() implies r[k].0 == price || has_price(s, r[k].0) by {
            if k == 0 {
                assert(r[0] == s[0]);
                assert(0 <= 0 < s.len() && s[0].0 == r[0].0);
            } else {
                assert(r[k] == rr[k - 1]);
                if rr[k - 1].0 != price {
                    let j = choose|j: int|
                        0 <= j < s.drop_first().len() && s.drop_first()[j].0 == rr[k - 1].0;
                    assert(s[j + 1].0 == r[k].0);
                }
            }
        }
    } else if s[0].0 == price {
        assert forall|k: int| 0 <= k < r.len() implies r[k].0 == price || has_price(s, r[k].0) by {
            if k == 0 {
                assert(r[0].0 == price);
            } else {
                assert(r[k] == s.drop_first()[k - 1]);
                assert(s[k].0 == r[k].0);
            }
        }
    } else {
        assert forall|k: int| 0 <= k < r.len() implies r[k].0 == price || has_price(s, r[k].0) by {
            if k == 0 {
                assert(r[0].0 == price);
            } else {
                assert(r[k] == s[k - 1]);
                assert(s[k - 1].0 == r[k].0);
            }
        }
    }
}

/// Inserting into a strictly descending ladder yields a strictly descending
/// ladder, so no duplicate prices ever arise from `add`, however many calls
/// are chained.
pub proof fn lemma_add_preserves_sorted(s: LadderModel, price: i32, entry: (u32, u128))
    requires
        ladder_sorted(s),
    ensures
        ladder_sorted(spec_add(s, price, entry)),
    decreases s.len(),
{
    let r = spec_add(s, price, entry);
    if s.len() == 0 {
        assert(ladder_sorted(r));
    } else if s[0].0 > price {
        assert(ladder_sorted(s.drop_first()));
        lemma_add_preserves_sorted(s.drop_first(), price, entry);
        lemma_spec_add_prices(s.drop_first(), price, entry);
        let rr = spec_add(s.drop_first(), price, entry);
        assert forall|i: int, j: int| 0 <= i < j < r.len() implies r[i].0 > r[j].0 by {
            if i == 0 {
                assert(r[j] == rr[j - 1]);
                if rr[j - 1].0 == price {
                } else {
                    assert(has_price(s.drop_first(), rr[j - 1].0));
                    let w = choose|w: int|
                        0 <= w < s.drop_first().len() && s.drop_first()[w].0 == rr[j - 1].0;
                    assert(s[w + 1].0 == rr[j - 1].0);
                    assert(s[0].0 > s[w + 1].0);
                }
            } else {
                assert(r[i] == rr[i - 1]);
                assert(r[j] == rr[j - 1]);
            }
        }
    } else if s[0].0 == price {
        assert forall|i: int, j: int| 0 <= i < j < r.len() implies r[i].0 > r[j].0 by {
            assert(r[i].0 == s[i].0);
            assert(r[j].0 == s[j].0);
        }
    } else {
        assert forall|i: int, j: int| 0 <= i < j < r.len() implies r[i].0 > r[j].0 by {
            if i == 0 {
                assert(r[j] == s[j - 1]);
                if j == 1 {
                    assert(r[0].0 == price && price > s[0].0);
                } else {
                    assert(s[0].0 > s[j - 1].0);
                }
            } else {
                assert(r[i] == s[i - 1]);
                assert(r[j] == s[j - 1]);
            }
        }
    }
}

/// Insertion of a nonzero-size entry keeps the full ladder invariant:
/// sorted, no empty levels, no zero-size entries.
pub proof fn lemma_add_preserves_wf(s: LadderModel, price: i32, entry: (u32, u128))
    requires
        ladder_wf(s),
        entry.0 > 0,
    ensures
        ladder_wf(spec_add(s, price, entry)),
    decreases s.len(),
{
    lemma_add_preserves_sorted(s, price, entry);
    let r = spec_add(s, price, entry);
    if s.len() == 0 {
        assert forall|i: int|
            0 <= i < r.len() implies r[i].1.len() > 0 && positive_sizes(#[trigger] r[i].1) by {
            assert(r[i] == (price, seq![entry]));
            assert(seq![entry][0] == entry);
        }
    } else if s[0].0 > price {
        assert(ladder_wf(s.drop_first())) by {
            assert forall|a: int, b: int|
                0 <= a < b < s.drop_first().len() implies s.drop_first()[a].0
                > s.drop_first()[b].0 by {
                assert(s.drop_first()[a] == s[a + 1]);
                assert(s.drop_first()[b] == s[b + 1]);
            }
            assert forall|a: int|
                0 <= a < s.drop_first().len() implies s.drop_first()[a].1.len() > 0
                && positive_sizes(#[trigger] s.drop_first()[a].1) by {
                assert(s.drop_first()[a] == s[a + 1]);
                assert(s[a + 1].1.len() > 0 && positive_sizes(s[a + 1].1));
            }
        }
        lemma_add_preserves_wf(s.drop_first(), price, entry);
        let rr = spec_add(s.drop_first(), price, entry);
        assert forall|i: int|
            0 <= i < r.len() implies r[i].1.len() > 0 && positive_sizes(#[trigger] r[i].1) by {
            if i == 0 {
                assert(r[0] == s[0]);
                assert(s[0].1.len() > 0 && positive_sizes(s[0].1));
            } else {
                assert(r[i] == rr[i - 1]);
                assert(rr[i - 1].1.len() > 0 && positive_sizes(rr[i - 1].1));
            }
        }
    } else if s[0].0 == price {
        assert forall|i: int|
            0 <= i < r.len() implies r[i].1.len() > 0 && positive_sizes(#[trigger] r[i].1) by {
            if i == 0 {
                assert(r[0].1 == s[0].1.push(entry));
                assert(positive_sizes(s[0].1));
                assert forall|k: int|
                    0 <= k < s[0].1.push(entry).len() implies s[0].1.push(entry)[k].0 > 0 by {
                    if k < s[0].1.len() {
                        assert(s[0].1.push(entry)[k] == s[0].1[k]);
                    } else {
                        assert(s[0].1.push(entry)[k] == entry);
                    }
                }
            } else {
                assert(r[i] == s[i]);
                assert(s[i].1.len() > 0 && positive_sizes(s[i].1));
            }
        }
    } else {
        assert forall|i: int|
            0 <= i < r.len() implies r[i].1.len() > 0 && positive_sizes(#[trigger] r[i].1) by {
            if i == 0 {
                assert(r[0] == (price, seq![entry]));
                assert(seq![entry][0] == entry);
            } else {
                assert(r[i] == s[i - 1]);
                assert(s[i - 1].1.len() > 0 && positive_sizes(s[i - 1].1));
            }
        }
    }
}

/// Prepending one entry adds its size to the queue total.
pub proof fn lemma_queue_total_prepend(e: (u32, u128), q: Seq<(u32, u128)>)
    ensures
        queue_total(seq![e] + q) == e.0 + queue_total(q),
    decreases q.len(),
{
    if q.len() == 0 {
        assert(seq![e] + q =~= seq![e]);
        assert((seq![e]).drop_last() =~= Seq::<(u32, u128)>::empty());
        assert(queue_total(Seq::<(u32, u128)>::empty()) == 0);
        assert((seq![e]).last() == e);
        assert(queue_total(seq![e]) == e.0);
        assert(queue_total(q) == 0);
    } else {
        lemma_queue_total_prepend(e, q.drop_last());
        assert((seq![e] + q).drop_last() =~= seq![e] + q.drop_last());
        assert((seq![e] + q).last() == q.last());
    }
}

/// Appending one entry adds its size to the queue total.
pub proof fn lemma_queue_total_push(q: Seq<(u32, u128)>, e: (u32, u128))
    ensures
        queue_total(q.push(e)) == queue_total(q) + e.0,
{
    assert(q.push(e).drop_last() =~= q);
    assert(q.push(e).last() == e);
}

/// Appending one level adds its queue total to the ladder total.
pub proof fn lemma_ladder_total_push(s: LadderModel, lvl: (i32, Seq<(u32, u128)>))
    ensures
        ladder_total(s.push(lvl)) == ladder_total(s) + queue_total(lvl.1),
{
    assert(s.push(lvl).drop_last() =~= s);
    assert(s.push(lvl).last() == lvl);
}

/// Conservation at one level: a queue split moves quantity, never makes or
/// destroys it. What was taken is exactly what the request shrank by, and
/// remainder plus taken hold exactly the original total.
pub proof fn lemma_queue_split_conserves(q: Seq<(u32, u128)>, left: u32)
    ensures
        queue_total(q) == queue_total(queue_split(q, left).0) + queue_total(
            queue_split(q, left).1,
        ),
        queue_total(queue_split(q, left).1) == left - queue_split(q, left).2,
        queue_split(q, left).2 <= left,
    decreases q.len(),
{
    if left == 0 || q.len() == 0 {
        assert(queue_total(Seq::<(u32, u128)>::empty()) == 0);
    } else if q.last().0 <= left {
        let rest = queue_split(q.drop_last(), (left - q.last().0) as u32);
        lemma_queue_split_conserves(q.drop_last(), (left - q.last().0) as u32);
        lemma_queue_total_prepend(q.last(), rest.1);
    } else {
        lemma_queue_total_push(q.drop_last(), (((q.last().0 - left) as u32), q.last().1));
        assert(queue_total(seq![(left, q.last().1)] + Seq::<(u32, u128)>::empty()) == left
            + queue_total(Seq::<(u32, u128)>::empty())) by {
            lemma_queue_total_prepend((left, q.last().1), Seq::<(u32, u128)>::empty());
        }
        assert(seq![(left, q.last().1)] + Seq::<(u32, u128)>::empty() =~= seq![
            (left, q.last().1),
        ]);
    }
}

/// A split moves quantity and never makes or destroys it: what left the
/// ladder is exactly what rests in the returned sub-ladder, which in turn
/// is exactly what the request shrank by.
pub proof fn lemma_split_conserves(s: LadderModel, price: i32, left: u32)
    ensures
        ladder_total(s) == ladder_total(ladder_split(s, price, left).0) + ladder_total(
            ladder_split(s, price, left).1,
        ),
        ladder_total(ladder_split(s, price, left).1) == left - ladder_split(s, price, left).2,
        ladder_split(s, price, left).2 <= left,
    decreases s.len(),
{
    if s.len() == 0 || s.last().0 > price || left == 0 {
        assert(ladder_total(Seq::<(i32, Seq<(u32, u128)>)>::empty()) == 0);
    } else {
        let qs = queue_split(s.last().1, left);
        lemma_queue_split_conserves(s.last().1, left);
        if qs.0.len() != 0 {
            lemma_ladder_total_push(s.drop_last(), (s.last().0, qs.0));
            lemma_ladder_total_push(Seq::<(i32, Seq<(u32, u128)>)>::empty(), (s.last().0, qs.1));
            assert(Seq::<(i32, Seq<(u32, u128)>)>::empty().push((s.last().0, qs.1)) =~= seq![
                (s.last().0, qs.1),
            ]);
            assert(ladder_total(Seq::<(i32, Seq<(u32, u128)>)>::empty()) == 0);
        } else {
            let rest = ladder_split(s.drop_last(), price, qs.2);
            lemma_split_conserves(s.drop_last(), price, qs.2);
            lemma_ladder_total_push(rest.1, (s.last().0, qs.1));
            assert(rest.1 + seq![(s.last().0, qs.1)] =~= rest.1.push((s.last().0, qs.1)));
            assert(queue_total(qs.0) == 0);
        }
    }
}

/// Levels a split does not touch are kept exactly as they were: whatever
/// remains of the ladder is a prefix of the original, except that the last
/// remaining level may have had its queue drained in part; even then its
/// price is still the original one.
pub proof fn lemma_split_frame(s: LadderModel, price: i32, left: u32)
    ensures
        ladder_split(s, price, left).0.len() <= s.len(),
        forall|i: int|
            0 <= i < ladder_split(s, price, left).0.len() - 1 ==> ladder_split(
                s,
                price,
                left,
            ).0[i] == s[i],
        ladder_split(s, price, left).0.len() > 0 ==> ladder_split(s, price, left).0.last().0
            == s[ladder_split(s, price, left).0.len() - 1].0,
    decreases s.len(),
{
    if s.len() == 0 || s.last().0 > price || left == 0 {
    } else {
        let qs = queue_split(s.last().1, left);
        if qs.0.len() != 0 {
        } else {
            lemma_split_frame(s.drop_last(), price, qs.2);
            let rest = ladder_split(s.drop_last(), price, qs.2);
            assert forall|i: int| 0 <= i < rest.0.len() - 1 implies rest.0[i] == s[i] by {
                assert(rest.0[i] == s.drop_last()[i]);
            }
            if rest.0.len() > 0 {
                assert(s.drop_last()[rest.0.len() - 1] == s[rest.0.len() - 1]);
            }
        }
    }
}

/// A split never leaves a level with an empty queue behind in the ladder
/// it drained.
pub proof fn lemma_split_no_empty(s: LadderModel, price: i32, left: u32)
    requires
        no_empty_levels(s),
    ensures
        no_empty_levels(ladder_split(s, price, left).0),
    decreases s.len(),
{
    if s.len() == 0 || s.last().0 > price || left == 0 {
    } else {
        let qs = queue_split(s.last().1, left);
        if qs.0.len() != 0 {
            let kept = s.drop_last().push((s.last().0, qs.0));
            assert forall|i: int| 0 <= i < kept.len() implies kept[i].1.len() > 0 by {
                if i < kept.len() - 1 {
                    assert(kept[i] == s[i]);
                }
            }
        } else {
            assert(no_empty_levels(s.drop_last()));
            lemma_split_no_empty(s.drop_last(), price, qs.2);
        }
    }
}

/// Asking for nothing takes nothing and leaves the ladder exactly as it
/// was, whatever the price given.
pub proof fn lemma_split_zero(s: LadderModel, price: i32)
    ensures
        ladder_split(s, price, 0) == (s, Seq::<(i32, Seq<(u32, u128)>)>::empty(), 0u32),
{
}

/// Every level of the returned sub-ladder rests at a price that does not
/// exceed the ceiling, so no liquidity ever leaves a level priced above it,
/// however large the request.
pub proof fn lemma_split_ceiling(s: LadderModel, price: i32, left: u32)
    ensures
        forall|i: int|
            0 <= i < ladder_split(s, price, left).1.len() ==> #[trigger] ladder_split(
                s,
                price,
                left,
            ).1[i].0 <= price,
    decreases s.len(),
{
    if s.len() == 0 || s.last().0 > price || left == 0 {
    } else {
        let qs = queue_split(s.last().1, left);
        if qs.0.len() != 0 {
        } else {
            lemma_split_ceiling(s.drop_last(), price, qs.2);
            let rest = ladder_split(s.drop_last(), price, qs.2);
            assert forall|i: int|
                0 <= i < ladder_split(s, price, left).1.len() implies #[trigger] ladder_split(
                s,
                price,
                left,
            ).1[i].0 <= price by {
                if i < rest.1.len() {
                    assert(ladder_split(s, price, left).1[i] == rest.1[i]);
                } else {
                    assert(ladder_split(s, price, left).1[i] == (s.last().0, qs.1));
                }
            }
        }
    }
}

/// A queue split never makes a zero-size entry, on either side, when the
/// queue held none.
pub proof fn lemma_queue_split_positive(q: Seq<(u32, u128)>, left: u32)
    requires
        positive_sizes(q),
    ensures
        positive_sizes(queue_split(q, left).0),
        positive_sizes(queue_split(q, left).1),
    decreases q.len(),
{
    if left == 0 || q.len() == 0 {
    } else if q.last().0 <= left {
        assert(positive_sizes(q.drop_last())) by {
            assert forall|k: int| 0 <= k < q.drop_last().len() implies q.drop_last()[k].0 > 0 by {
                assert(q.drop_last()[k] == q[k]);
            }
        }
        lemma_queue_split_positive(q.drop_last(), (left - q.last().0) as u32);
        let rest = queue_split(q.drop_last(), (left - q.last().0) as u32);
        assert forall|k: int|
            0 <= k < (seq![q.last()] + rest.1).len() implies (seq![q.last()] + rest.1)[k].0
            > 0 by {
            if k == 0 {
                assert((seq![q.last()] + rest.1)[0] == q.last());
            } else {
                assert((seq![q.last()] + rest.1)[k] == rest.1[k - 1]);
            }
        }
    } else {
        let residual = (((q.last().0 - left) as u32), q.last().1);
        assert forall|k: int|
            0 <= k < q.drop_last().push(residual).len() implies q.drop_last().push(
                residual,
            )[k].0 > 0 by {
            if k < q.drop_last().len() {
                assert(q.drop_last().push(residual)[k] == q[k]);
            } else {
                assert(q.drop_last().push(residual)[k] == residual);
            }
        }
        assert(seq![(left, q.last().1)][0] == (left, q.last().1));
    }
}

/// Every price in the returned sub-ladder was a price of the original
/// ladder.
pub proof fn lemma_split_taken_prices(s: LadderModel, price: i32, left: u32)
    ensures
        forall|i: int|
            0 <= i < ladder_split(s, price, left).1.len() ==> has_price(
                s,
                #[trigger] ladder_split(s, price, left).1[i].0,
            ),
    decreases s.len(),
{
    let r1 = ladder_split(s, price, left).1;
    if s.len() == 0 || s.last().0 > price || left == 0 {
    } else {
        let qs = queue_split(s.last().1, left);
        if qs.0.len() != 0 {
            assert forall|i: int| 0 <= i < r1.len() implies has_price(s, r1[i].0) by {
                assert(r1[i] == (s.last().0, qs.1));
                assert(s[s.len() - 1].0 == r1[i].0);
            }
        } else {
            lemma_split_taken_prices(s.drop_last(), price, qs.2);
            let rest = ladder_split(s.drop_last(), price, qs.2);
            assert forall|i: int| 0 <= i < r1.len() implies has_price(s, r1[i].0) by {
                if i < rest.1.len() {
                    assert(r1[i] == rest.1[i]);
                    let w = choose|w: int|
                        0 <= w < s.drop_last().len() && s.drop_last()[w].0 == rest.1[i].0;
                    assert(s[w].0 == r1[i].0);
                } else {
                    assert(r1[i] == (s.last().0, qs.1));
                    assert(s[s.len() - 1].0 == r1[i].0);
                }
            }
        }
    }
}

/// A split of a sorted ladder leaves both ladders sorted: what remains and
/// what was taken are each strictly descending in price.
pub proof fn lemma_split_preserves_sorted(s: LadderModel, price: i32, left: u32)
    requires
        ladder_sorted(s),
    ensures
        ladder_sorted(ladder_split(s, price, left).0),
        ladder_sorted(ladder_split(s, price, left).1),
    decreases s.len(),
{
    let r = ladder_split(s, price, left);
    lemma_split_frame(s, price, left);
    assert forall|i: int, j: int| 0 <= i < j < r.0.len() implies r.0[i].0 > r.0[j].0 by {
        assert(r.0[i].0 == s[i].0);
        assert(r.0[j].0 == s[j].0);
    }
    if s.len() == 0 || s.last().0 > price || left == 0 {
    } else {
        let qs = queue_split(s.last().1, left);
        if qs.0.len() != 0 {
        } else {
            assert(ladder_sorted(s.drop_last()));
            lemma_split_preserves_sorted(s.drop_last(), price, qs.2);
            lemma_split_taken_prices(s.drop_last(), price, qs.2);
            let rest = ladder_split(s.drop_last(), price, qs.2);
            assert forall|i: int, j: int| 0 <= i < j < r.1.len() implies r.1[i].0 > r.1[j].0 by {
                if j < rest.1.len() {
                    assert(r.1[i] == rest.1[i]);
                    assert(r.1[j] == rest.1[j]);
                } else {
                    assert(r.1[i] == rest.1[i]);
                    assert(r.1[j] == (s.last().0, qs.1));
                    assert(has_price(s.drop_last(), rest.1[i].0));
                    let w = choose|w: int|
                        0 <= w < s.drop_last().len() && s.drop_last()[w].0 == rest.1[i].0;
                    assert(s[w].0 == rest.1[i].0);
                    assert(s[w].0 > s[s.len() - 1].0);
                }
            }
        }
    }
}

/// The full invariant survives a split, on both sides: each resulting
/// ladder is sorted, free of empty levels and free of zero-size entries.
pub proof fn lemma_split_preserves_wf(s: LadderModel, price: i32, left: u32)
    requires
        ladder_wf(s),
    ensures
        ladder_wf(ladder_split(s, price, left).0),
        ladder_wf(ladder_split(s, price, left).1),
    decreases s.len(),
{
    lemma_split_preserves_sorted(s, price, left);
    lemma_split_no_empty(s, price, left);
    let r = ladder_split(s, price, left);
    if s.len() == 0 || s.last().0 > price || left == 0 {
    } else {
        let qs = queue_split(s.last().1, left);
        lemma_queue_split_positive(s.last().1, left);
        if qs.0.len() != 0 {
            assert forall|i: int|
                0 <= i < r.0.len() implies positive_sizes(#[trigger] r.0[i].1) by {
                if i < r.0.len() - 1 {
                    assert(r.0[i] == s[i]);
                } else {
                    assert(r.0[i].1 == qs.0);
                }
            }
            assert forall|i: int|
                0 <= i < r.1.len() implies r.1[i].1.len() > 0 && positive_sizes(
                #[trigger] r.1[i].1) by {
                assert(r.1[i] == (s.last().0, qs.1));
            }
        } else {
            assert(ladder_wf(s.drop_last()));
            lemma_split_preserves_wf(s.drop_last(), price, qs.2);
            let rest = ladder_split(s.drop_last(), price, qs.2);
            assert forall|i: int|
                0 <= i < r.1.len() implies r.1[i].1.len() > 0 && positive_sizes(
                #[trigger] r.1[i].1) by {
                if i < rest.1.len() {
                    assert(r.1[i] == rest.1[i]);
                    assert(rest.1[i].1.len() > 0 && positive_sizes(rest.1[i].1));
                } else {
                    assert(r.1[i] == (s.last().0, qs.1));
                }
            }
        }
    }
}
} // verus!
