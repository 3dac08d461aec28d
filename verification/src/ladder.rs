//! The executable ladder type and its operations.

use vstd::prelude::*;
use crate::model::{levels_view, queue_split, ladder_split, spec_add, ladder_sorted};

verus! {

/// A price. Levels are kept strictly sorted by price, descending.
pub type Price = i32;

/// A quantity. Zero never persists inside a level's queue.
pub type Size = u32;

/// Opaque payload carried through unchanged.
pub type Meta = u128;

/// One resting entry: remaining quantity and its payload.
pub type Order = (Size, Meta);

/// A level's queue of entries, most recent at the back.
pub type Orders = Vec<Order>;

/// A ladder of price levels, strictly descending by price, at most one
/// level per price, no level with an empty queue.
#[derive(Debug, Clone, Default)]
pub struct List {
    pub orders: Vec<(Price, Orders)>,
}

impl View for List {
    type V = Seq<(i32, Seq<(u32, u128)>)>;

    open spec fn view(&self) -> Self::V {
        levels_view(self.orders@)
    }
}

impl List {
    /// The empty ladder.
    pub fn empty() -> (r: List)
        ensures
            r@ == Seq::<(i32, Seq<(u32, u128)>)>::empty(),
    {
        let r = List::from(Vec::new());
        proof {
            assert(r@ =~= Seq::<(i32, Seq<(u32, u128)>)>::empty());
        }
        r
    }

    /// A ladder over a caller-supplied level sequence. Nothing is sorted or
    /// validated here: callers owe a strictly descending, price-unique
    /// sequence if they want the operations' ordering guarantees.
    pub fn from(v: Vec<(Price, Orders)>) -> (r: List)
        ensures
            r.orders == v,
            r@ == levels_view(v@),
    {
        List { orders: v }
    }

    /// Binary search for a price over the descending-sorted levels.
    ///
    /// `Ok(i)` when level `i` rests at `el`; `Err(i)` with the index where a
    /// new level at `el` keeps the descending order.
    fn find(&self, el: &Price) -> (r: Result<usize, usize>)
        requires
            ladder_sorted(self@),
        ensures
            match r {
                Result::Ok(i) => i < self@.len() && self@[i as int].0 == *el,
                Result::Err(i) => {
                    &&& i <= self@.len()
                    &&& forall|j: int| 0 <= j < i ==> self@[j].0 > *el
                    &&& forall|j: int| i <= j < self@.len() ==> self@[j].0 < *el
                },
            },
    {
        let mut lo: usize = 0;
        let mut hi: usize = self.orders.len();
        while lo < hi
            invariant
                lo <= hi <= self@.len(),
                self@.len() == self.orders@.len(),
                ladder_sorted(self@),
                forall|j: int| 0 <= j < lo ==> self@[j].0 > *el,
                forall|j: int| hi <= j < self@.len() ==> self@[j].0 < *el,
            decreases hi - lo,
        {
            let mid: usize = lo + (hi - lo) / 2;
            let p: Price = self.orders[mid].0;
            assert(p == self@[mid as int].0);
            if p > *el {
                lo = mid + 1;
            } else if p < *el {
                hi = mid;
            } else {
                return Result::Ok(mid);
            }
        }
        Result::Err(lo)
    }

    /// Inserts a new entry `(el.1, el.2)` at price `el.0`, appending to the
    /// level's queue when the price is already present and creating the
    /// level at its sorted place otherwise. Never fails.
    pub fn add(&mut self, el: (Price, Size, Meta))
        requires
            ladder_sorted(old(self)@),
        ensures
            final(self)@ == spec_add(old(self)@, el.0, (el.1, el.2)),
            ladder_sorted(final(self)@),
    {
        let ghost s0 = self@;
        match self.find(&el.0) {
            Result::Ok(o) => {
                let q: &mut Orders = &mut self.orders[o].1;
                q.push((el.1, el.2));
                proof {
                    crate::model::lemma_spec_add_at_match(s0, el.0, (el.1, el.2), o as int);
                    assert(self@ =~= s0.update(o as int, (el.0, s0[o as int].1.push((
                        el.1,
                        el.2,
                    )))));
                }
            },
            Result::Err(e) => {
                let mut q: Orders = Vec::new();
                q.push((el.1, el.2));
                self.orders.insert(e, (el.0, q));
                proof {
                    crate::model::lemma_spec_add_at_insert(s0, el.0, (el.1, el.2), e as int);
                    assert(q@ =~= seq![(el.1, el.2)]);
                    assert(self@ =~= s0.insert(e as int, (el.0, seq![(el.1, el.2)])));
                }
            },
        }
        proof {
            crate::laws::lemma_add_preserves_sorted(s0, el.0, (el.1, el.2));
        }
    }

    /// Consumes one entry against the remaining request `left`.
    ///
    /// `Err(taken)` when the whole entry is consumed; `Ok((taken, residual))`
    /// when only part of it is needed, with the residual to be put back.
    /// `left` drops by exactly the quantity taken.
    pub fn order_split(order: Order, left: &mut Size) -> (r: Result<(Order, Order), Order>)
        ensures
            order.0 <= *old(left) ==> {
                &&& r == Result::<(Order, Order), Order>::Err(order)
                &&& *final(left) == *old(left) - order.0
            },
            order.0 > *old(left) ==> {
                &&& r == Result::<(Order, Order), Order>::Ok(
                    ((*old(left), order.1), (((order.0 - *old(left)) as u32), order.1)),
                )
                &&& *final(left) == 0
            },
    {
        let taken: u32 = if *left < order.0 {
            *left
        } else {
            order.0
        };
        *left = *left - taken;
        if order.0 - taken == 0 {
            Result::Err(order)
        } else {
            Result::Ok(((taken, order.1), (order.0 - taken, order.1)))
        }
    }

    /// Removes up to `issue.1` units of liquidity from the low-price end of
    /// the ladder, visiting levels in ascending price order but only while
    /// their price does not exceed `issue.0`. Returns the consumed entries
    /// as a ladder of their own, in descending price order; `self` keeps
    /// exactly what was not consumed, a partially drained level staying in
    /// place as the tail.
    pub fn split(&mut self, issue: (Price, Size)) -> (r: List)
        ensures
            final(self)@ == ladder_split(old(self)@, issue.0, issue.1).0,
            r@ == ladder_split(old(self)@, issue.0, issue.1).1,
    {
        let (price, mut left) = issue;
        let ghost s0 = self@;
        let ghost l0 = left;
        let mut out: Vec<(Price, Orders)> = Vec::new();
        while self.orders.len() != 0 && left != 0 && self.orders[self.orders.len() - 1].0
            <= price
            invariant
                price == issue.0,
                ladder_split(s0, price, l0).0 == ladder_split(self@, price, left).0,
                ladder_split(s0, price, l0).1 == ladder_split(self@, price, left).1
                    + levels_view(out@),
                ladder_split(s0, price, l0).2 == ladder_split(self@, price, left).2,
            decreases self.orders@.len(), left,
        {
            let ghost o_in = self.orders@;
            let ghost s_in = self@;
            let ghost l_in = left;
            let ghost out_in = out@;
            let lvl = self.orders.pop().unwrap();
            let (pr, mut q) = lvl;
            let ghost q_in = q@;
            let row = List::orders_split(&mut q, &mut left);
            out.insert(0, (pr, row));
            if q.len() != 0 {
                self.orders.push((pr, q));
            }
            proof {
                let qs = queue_split(q_in, l_in);
                assert(q_in == s_in.last().1);
                assert(s_in.last().0 == pr);
                assert(o_in.subrange(0, o_in.len() - 1) =~= o_in.drop_last());
                assert(levels_view(o_in.drop_last()) =~= s_in.drop_last());
                crate::model::lemma_queue_split_nonempty_rem(q_in, l_in);
                assert(levels_view(out@) =~= (seq![(pr, qs.1)] + levels_view(out_in)));
                if qs.0.len() != 0 {
                    assert(self@ =~= s_in.drop_last().push((pr, qs.0)));
                    assert(ladder_split(s_in, price, l_in).1 + levels_view(out_in)
                        =~= levels_view(out@));
                } else {
                    assert(self@ =~= s_in.drop_last());
                    let rest = ladder_split(s_in.drop_last(), price, qs.2);
                    assert((rest.1 + seq![(pr, qs.1)]) + levels_view(out_in) =~= rest.1
                        + levels_view(out@));
                }
            }
        }
        proof {
            assert(ladder_split(self@, price, left) == (
                self@,
                Seq::<(i32, Seq<(u32, u128)>)>::empty(),
                left,
            ));
            assert(Seq::<(i32, Seq<(u32, u128)>)>::empty() + levels_view(out@) =~= levels_view(
                out@,
            ));
        }
        List::from(out)
    }

    /// Drains entries from the recent end (the back) of `els` until `left`
    /// is spent or the queue is exhausted, splitting at most the last
    /// needed entry. Returns the drained entries in drain order.
    pub fn orders_split(els: &mut Orders, left: &mut Size) -> (v: Vec<Order>)
        ensures
            final(els)@ == queue_split(old(els)@, *old(left)).0,
            v@ == queue_split(old(els)@, *old(left)).1,
            *final(left) == queue_split(old(els)@, *old(left)).2,
    {
        let ghost q0 = els@;
        let ghost l0 = *left;
        let mut rem: u32 = *left;
        let mut v: Vec<Order> = Vec::new();
        while rem != 0 && els.len() != 0
            invariant
                queue_split(q0, l0).0 == queue_split(els@, rem).0,
                queue_split(q0, l0).1 == v@ + queue_split(els@, rem).1,
                queue_split(q0, l0).2 == queue_split(els@, rem).2,
            decreases els@.len(), rem,
        {
            let ghost q_in = els@;
            let ghost l_in = rem;
            let ghost v_in = v@;
            let el = els.pop().unwrap();
            match List::order_split(el, &mut rem) {
                Result::Ok((a, b)) => {
                    v.push(a);
                    els.push(b);
                },
                Result::Err(a) => {
                    v.push(a);
                },
            }
            proof {
                assert(el == q_in.last());
                assert(q_in.subrange(0, q_in.len() - 1) =~= q_in.drop_last());
                if el.0 <= l_in {
                    assert(els@ =~= q_in.drop_last());
                    assert(v_in + (seq![el] + queue_split(els@, rem).1) =~= v@ + queue_split(
                        els@,
                        rem,
                    ).1);
                } else {
                    assert(els@ =~= q_in.drop_last().push((((el.0 - l_in) as u32), el.1)));
                    assert(v_in + seq![(l_in, el.1)] =~= v@);
                    assert(v@ + Seq::<(u32, u128)>::empty() =~= v@);
                }
            }
        }
        proof {
            assert(queue_split(els@, rem) == (els@, Seq::<(u32, u128)>::empty(), rem));
            assert(v@ + Seq::<(u32, u128)>::empty() =~= v@);
        }
        *left = rem;
        v
    }
}

} // verus!
