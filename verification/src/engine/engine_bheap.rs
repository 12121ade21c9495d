//! The order book side kept as a binary max-heap in priority order.
use crate::engine::book::{
    best, is_best, lemma_best, lemma_outranks_order, lemma_ranks_trans, outranks,
    ranks_at_least, stops_at, sweep, Fill,
};
use crate::engine::{
    offer_of_entry, price_fits, reports, side_ok, signed_limit, unwrap_u64, wrap_i64,
    EngineDataStruct, MatchResult,
};
use crate::offers::{opposite, Offer, OfferKey, OfferValue, Security, Side};
use vstd::multiset::Multiset;
use vstd::prelude::*;

verus! {

broadcast use {vstd::seq_lib::group_to_multiset_ensures, vstd::multiset::group_multiset_axioms};

/// A resting order as the book keeps it: the price signed so that, on
/// either side, a better price is a greater number (`None` at market); the
/// key as its counter; the amount still open.
#[derive(Clone, Copy, Debug, PartialEq, Eq, Structural)]
pub struct EngineOfferBH {
    pub price: Option<i64>,
    pub key: u64,
    pub amount: u64,
}

impl EngineOfferBH {
    /// Whether `self` is served strictly before `other`.
    pub fn outranks(&self, other: &Self) -> (r: bool)
        ensures
            r == outranks(*self, *other),
    {
        match (self.price, other.price) {
            (None, Some(_)) => false,
            (Some(_), None) => true,
            (Some(a), Some(b)) if a != b => a > b,
            _ => if self.key != other.key {
                self.key > other.key
            } else {
                self.amount > other.amount
            },
        }
    }
}

/// `p` read as a signed number in two's complement.
fn to_signed(p: u64) -> (r: i64)
    ensures
        r == wrap_i64(p),
{
    if p <= 0x7fff_ffff_ffff_ffff {
        p as i64
    } else {
        ((p - 0x8000_0000_0000_0000u64) as i64) + i64::MIN
    }
}

/// `p` read back as the unsigned number whose two's complement it is.
fn to_unsigned(p: i64) -> (r: u64)
    ensures
        r == unwrap_u64(p as int),
{
    if p >= 0 {
        p as u64
    } else {
        ((p - i64::MIN) as u64) + 0x8000_0000_0000_0000u64
    }
}

impl EngineOfferBH {
    /// The signed price under which `offer` rests on its side of the book.
    pub fn price_from_offer(offer: &Offer) -> (r: Option<i64>)
        requires
            price_fits(offer.value),
        ensures
            r == signed_limit(offer.value),
    {
        match offer.value.price {
            None => None,
            Some(p) => {
                let sp = to_signed(p);
                match offer.value.side {
                    Side::Buy => Some(sp),
                    Side::Sell => Some(-sp),
                }
            },
        }
    }

    /// The order that this resting order of side `side` stands for.
    pub fn into_offer(&self, side: Side, security: Security) -> (r: Offer)
        requires
            side == Side::Sell ==> self.price != Some(i64::MIN),
        ensures
            offer_of_entry(r, *self, side, security),
    {
        let price = match self.price {
            None => None,
            Some(p) => match side {
                Side::Buy => Some(to_unsigned(p)),
                Side::Sell => Some(to_unsigned(-p)),
            },
        };
        Offer {
            key: OfferKey::from(self.key),
            value: OfferValue { security, side, amount: self.amount, price },
        }
    }
}

/// One side of the order book, as a binary heap whose first element is the
/// order served first.
pub struct BinaryHeapEngine {
    data: Vec<EngineOfferBH>,
}

/// The index of the parent of node `i` in the heap layout.
pub open spec fn parent(i: int) -> int {
    (i - 1) / 2
}

/// Node `i` is served no earlier than its parent.
pub open spec fn edge_ok(s: Seq<EngineOfferBH>, i: int) -> bool {
    ranks_at_least(s[parent(i)], s[i])
}

/// Every node is served no earlier than its parent.
pub open spec fn heap_ordered(s: Seq<EngineOfferBH>) -> bool {
    forall|i: int| 0 < i < s.len() ==> #[trigger] edge_ok(s, i)
}

/// Heap order holds but for the edge above `k`, and the parent of `k` may
/// stand above `k`'s children.
pub open spec fn ordered_but_above(s: Seq<EngineOfferBH>, k: int) -> bool {
    &&& forall|i: int| 0 < i < s.len() && i != k ==> #[trigger] edge_ok(s, i)
    &&& k > 0 && 2 * k + 1 < s.len() ==> ranks_at_least(s[parent(k)], s[2 * k + 1])
    &&& k > 0 && 2 * k + 2 < s.len() ==> ranks_at_least(s[parent(k)], s[2 * k + 2])
}

/// Heap order holds but for the edges below `k`, and the parent of `k` may
/// stand above `k`'s children.
pub open spec fn ordered_but_below(s: Seq<EngineOfferBH>, k: int) -> bool {
    &&& forall|i: int| 0 < i < s.len() && parent(i) != k ==> #[trigger] edge_ok(s, i)
    &&& k > 0 && 2 * k + 1 < s.len() ==> ranks_at_least(s[parent(k)], s[2 * k + 1])
    &&& k > 0 && 2 * k + 2 < s.len() ==> ranks_at_least(s[parent(k)], s[2 * k + 2])
}

/// In a heap, the first node is served no later than any node.
proof fn lemma_root_ranks_first(s: Seq<EngineOfferBH>, i: int)
    requires
        heap_ordered(s),
        0 <= i < s.len(),
    ensures
        ranks_at_least(s[0], s[i]),
    decreases i,
{
    if i > 0 {
        assert(edge_ok(s, i));
        lemma_root_ranks_first(s, parent(i));
        lemma_ranks_trans(s[0], s[parent(i)], s[i]);
    }
}

/// In a non-empty heap, the first node is the best order of the book.
proof fn lemma_root_is_best(s: Seq<EngineOfferBH>)
    requires
        heap_ordered(s),
        s.len() > 0,
    ensures
        is_best(s.to_multiset(), s[0]),
        best(s.to_multiset()) == s[0],
{
    assert(s.contains(s[0]));
    assert forall|y: EngineOfferBH| #[trigger] s.to_multiset().contains(y) implies ranks_at_least(
        s[0],
        y,
    ) by {
        let i = choose|i: int| 0 <= i < s.len() && s[i] == y;
        lemma_root_ranks_first(s, i);
    }
    lemma_best(s.to_multiset());
}

/// Swapping two nodes keeps the multiset of orders.
proof fn lemma_swap_keeps_orders(s: Seq<EngineOfferBH>, i: int, j: int)
    requires
        0 <= i < s.len(),
        0 <= j < s.len(),
    ensures
        s.update(i, s[j]).update(j, s[i]).to_multiset() == s.to_multiset(),
{
    let t = s.update(i, s[j]);
    assert(t[j] == if i == j { s[j] } else { s[j] });
    assert(t.to_multiset() == s.to_multiset().insert(s[j]).remove(s[i]));
    assert(t.update(j, s[i]).to_multiset() == t.to_multiset().insert(s[i]).remove(t[j]));
    assert(s.to_multiset().contains(s[i]));
    assert(s.to_multiset().contains(s[j]));
    assert(t.update(j, s[i]).to_multiset() =~= s.to_multiset());
}

impl BinaryHeapEngine {
    /// The orders on this side of the book.
    pub closed spec fn orders(&self) -> Multiset<EngineOfferBH> {
        self.data@.to_multiset()
    }

    /// The heap is in priority order.
    pub closed spec fn heap_inv(&self) -> bool {
        heap_ordered(self.data@)
    }

    fn swap_nodes(&mut self, i: usize, j: usize)
        requires
            i < old(self).data.len(),
            j < old(self).data.len(),
        ensures
            final(self).data@ == old(self).data@.update(i as int, old(self).data@[j as int]).update(
                j as int,
                old(self).data@[i as int],
            ),
            final(self).data@.to_multiset() == old(self).data@.to_multiset(),
    {
        proof {
            lemma_swap_keeps_orders(self.data@, i as int, j as int);
        }
        let a = self.data[i];
        let b = self.data[j];
        self.data.set(i, b);
        self.data.set(j, a);
    }
    /// Moves the node at `k` up until its parent is served no later than it.
    fn sift_up(&mut self, k0: usize)
        requires
            k0 < old(self).data.len(),
            ordered_but_above(old(self).data@, k0 as int),
        ensures
            heap_ordered(final(self).data@),
            final(self).data@.to_multiset() == old(self).data@.to_multiset(),
            final(self).data.len() == old(self).data.len(),
    {
        let mut k = k0;
        while k > 0
            invariant
                k < self.data.len(),
                self.data.len() == old(self).data.len(),
                ordered_but_above(self.data@, k as int),
                self.data@.to_multiset() == old(self).data@.to_multiset(),
            decreases k,
        {
            let p = (k - 1) / 2;
            if !self.data[k].outranks(&self.data[p]) {
                proof {
                    let s = self.data@;
                    lemma_outranks_order(s[k as int], s[p as int], s[k as int]);
                    assert(edge_ok(s, k as int));
                }
                return;
            }
            let ghost s = self.data@;
            self.swap_nodes(k, p);
            proof {
                let t = self.data@;
                let ki = k as int;
                let pi = p as int;
                assert forall|i: int| 0 < i < t.len() && i != pi implies #[trigger] edge_ok(t, i) by {
                    if i == ki {
                    } else if parent(i) == ki {
                        assert(i == 2 * ki + 1 || i == 2 * ki + 2);
                    } else if parent(i) == pi {
                        assert(edge_ok(s, i));
                        lemma_ranks_trans(s[ki], s[pi], s[i]);
                    } else {
                        assert(edge_ok(s, i));
                    }
                }
                if pi > 0 {
                    assert(edge_ok(s, pi));
                    let c = if ki == 2 * pi + 1 { 2 * pi + 2 } else { 2 * pi + 1 };
                    if c < t.len() {
                        assert(edge_ok(s, c));
                        lemma_ranks_trans(s[parent(pi)], s[pi], s[c]);
                    }
                }
            }
            k = p;
        }
    }

    /// Moves the node at `k` down until no child of it is served before it.
    fn sift_down(&mut self, k0: usize)
        requires
            k0 < old(self).data.len(),
            ordered_but_below(old(self).data@, k0 as int),
        ensures
            heap_ordered(final(self).data@),
            final(self).data@.to_multiset() == old(self).data@.to_multiset(),
            final(self).data.len() == old(self).data.len(),
    {
        let mut k = k0;
        let len = self.data.len();
        loop
            invariant
                k < self.data.len(),
                self.data.len() == len,
                len == old(self).data.len(),
                ordered_but_below(self.data@, k as int),
                self.data@.to_multiset() == old(self).data@.to_multiset(),
            decreases len - k,
        {
            if k >= len / 2 {
                proof {
                    let s = self.data@;
                    assert forall|i: int| 0 < i < s.len() implies #[trigger] edge_ok(s, i) by {
                        if parent(i) == k as int {
                            assert(false);
                        }
                    }
                }
                return;
            }
            let l = 2 * k + 1;
            let r = l + 1;
            let m = if r < len && self.data[r].outranks(&self.data[l]) {
                r
            } else {
                l
            };
            let ghost s = self.data@;
            let ghost ki = k as int;
            let ghost mi = m as int;
            let ghost oi = if m == l { r as int } else { l as int };
            proof {
                lemma_outranks_order(s[r as int], s[l as int], s[r as int]);
                if oi < s.len() {
                    assert(ranks_at_least(s[mi], s[oi]));
                }
            }
            if !self.data[m].outranks(&self.data[k]) {
                proof {
                    lemma_outranks_order(s[mi], s[ki], s[mi]);
                    assert forall|i: int| 0 < i < s.len() implies #[trigger] edge_ok(s, i) by {
                        if parent(i) == ki {
                            assert(i == mi || i == oi);
                            if i == oi {
                                lemma_ranks_trans(s[ki], s[mi], s[oi]);
                            }
                        }
                    }
                }
                return;
            }
            self.swap_nodes(k, m);
            proof {
                let t = self.data@;
                assert forall|i: int| 0 < i < t.len() && parent(i) != mi implies #[trigger] edge_ok(
                    t,
                    i,
                ) by {
                    if i == mi {
                    } else if i == oi {
                    } else if i == ki {
                    } else if parent(i) == ki {
                        assert(false);
                    } else {
                        assert(edge_ok(s, i));
                    }
                }
                if 2 * mi + 1 < t.len() {
                    assert(edge_ok(s, 2 * mi + 1));
                }
                if 2 * mi + 2 < t.len() {
                    assert(edge_ok(s, 2 * mi + 2));
                }
            }
            k = m;
        }
    }
    /// An empty side of the book with room for `capacity` orders.
    pub fn with_capacity(capacity: usize) -> (r: Self)
        ensures
            r.heap_inv(),
            r.orders() =~= Multiset::empty(),
    {
        let r = BinaryHeapEngine { data: Vec::with_capacity(capacity) };
        proof {
            assert(r.data@.to_multiset().len() == 0);
        }
        r
    }

    /// The number of orders on this side.
    pub fn len(&self) -> (r: usize)
        ensures
            r == self.orders().len(),
    {
        self.data.len()
    }

    /// Adds an order.
    pub fn push(&mut self, x: EngineOfferBH)
        requires
            old(self).heap_inv(),
        ensures
            final(self).heap_inv(),
            final(self).orders() == old(self).orders().insert(x),
    {
        let ghost s = self.data@;
        self.data.push(x);
        proof {
            let t = self.data@;
            assert forall|i: int| 0 < i < t.len() && i != s.len() implies #[trigger] edge_ok(t, i) by {
                assert(edge_ok(s, i));
            }
        }
        let k = self.data.len() - 1;
        self.sift_up(k);
    }

    /// The order served first, if any.
    pub fn peek(&self) -> (r: Option<EngineOfferBH>)
        requires
            self.heap_inv(),
        ensures
            match r {
                None => self.orders().len() == 0,
                Some(x) => self.orders().len() > 0 && x == best(self.orders()),
            },
    {
        if self.data.len() == 0 {
            None
        } else {
            proof {
                lemma_root_is_best(self.data@);
            }
            Some(self.data[0])
        }
    }

    /// Takes out the order served first, if any.
    pub fn pop(&mut self) -> (r: Option<EngineOfferBH>)
        requires
            old(self).heap_inv(),
        ensures
            final(self).heap_inv(),
            match r {
                None => old(self).orders().len() == 0 && final(self).orders() == old(self).orders(),
                Some(x) => {
                    &&& old(self).orders().len() > 0
                    &&& x == best(old(self).orders())
                    &&& final(self).orders() == old(self).orders().remove(x)
                },
            },
    {
        let ghost s = self.data@;
        proof {
            if s.len() > 0 {
                lemma_root_is_best(s);
            }
        }
        match self.data.pop() {
            None => None,
            Some(last) => {
                if self.data.len() == 0 {
                    proof {
                        assert(s =~= seq![last]);
                        assert(self.data@.to_multiset() =~= s.to_multiset().remove(last));
                    }
                    Some(last)
                } else {
                    let top = self.data[0];
                    let ghost d = self.data@;
                    assert(s =~= d.push(last));
                    self.data.set(0, last);
                    proof {
                        let t = self.data@;
                        assert forall|i: int| 0 < i < t.len() && parent(i) != 0 implies #[trigger] edge_ok(
                            t,
                            i,
                        ) by {
                            assert(edge_ok(s, i));
                        }
                        assert(t.to_multiset() == d.to_multiset().insert(last).remove(top));
                        assert(t.to_multiset() =~= s.to_multiset().remove(top));
                    }
                    self.sift_down(0);
                    Some(top)
                }
            },
        }
    }

    /// Takes `by` units from the order served first, which keeps more than
    /// that.
    pub fn reduce_top(&mut self, by: u64)
        requires
            old(self).heap_inv(),
            old(self).orders().len() > 0,
            by < best(old(self).orders()).amount,
        ensures
            final(self).heap_inv(),
            final(self).orders() == old(self).orders().remove(best(old(self).orders())).insert(
                EngineOfferBH { amount: (best(old(self).orders()).amount - by) as u64, ..best(old(self).orders()) },
            ),
    {
        let ghost s = self.data@;
        proof {
            lemma_root_is_best(s);
        }
        let mut top = self.data[0];
        top.amount = top.amount - by;
        self.data.set(0, top);
        proof {
            let t = self.data@;
            assert forall|i: int| 0 < i < t.len() && parent(i) != 0 implies #[trigger] edge_ok(t, i) by {
                assert(edge_ok(s, i));
            }
            assert(t.to_multiset() == s.to_multiset().insert(top).remove(s[0]));
            assert(t.to_multiset() =~= s.to_multiset().remove(s[0]).insert(top));
        }
        self.sift_down(0);
    }
}

impl EngineDataStruct for BinaryHeapEngine {
    open spec fn book(&self) -> Multiset<EngineOfferBH> {
        self.orders()
    }

    open spec fn inv(&self) -> bool {
        self.heap_inv()
    }

    fn with_capacity(capacity: usize) -> (r: Self) {
        BinaryHeapEngine::with_capacity(capacity)
    }

    fn match_offer(&mut self, matches: &mut Vec<Offer>, offer: Offer, other: &mut Self) -> (r:
        MatchResult) {
        let amount = offer.value.amount;
        let mut excedent = amount;
        let opposite_side = offer.opposite_side();
        let security = offer.value.security;
        let limit = EngineOfferBH::price_from_offer(&offer);
        let ghost s0 = sweep(old(self).orders(), amount, limit);
        let ghost mut taken: Seq<EngineOfferBH> = Seq::empty();
        loop
            invariant
                self.heap_inv(),
                other.heap_inv(),
                other.orders() == old(other).orders(),
                side_ok(offer.value.side, other.orders()),
                limit == signed_limit(offer.value),
                opposite_side == opposite(offer.value.side),
                security == offer.value.security,
                amount == offer.value.amount,
                excedent <= amount,
                side_ok(opposite_side, self.orders()),
                s0 == sweep(old(self).orders(), amount, limit),
                s0.filled == taken + sweep(self.orders(), excedent, limit).filled,
                s0.rest == sweep(self.orders(), excedent, limit).rest,
                s0.end == sweep(self.orders(), excedent, limit).end,
                reports(old(matches)@, matches@, taken, opposite_side, security, false, offer),
            ensures
                self.heap_inv(),
                other.heap_inv(),
                other.orders() == old(other).orders(),
                side_ok(offer.value.side, other.orders()),
                excedent <= amount,
                side_ok(opposite_side, self.orders()),
                s0.filled == taken,
                s0.rest == self.orders(),
                s0.end == (Fill::Halted { remaining: excedent }),
                reports(old(matches)@, matches@, taken, opposite_side, security, false, offer),
            decreases self.orders().len(),
        {
            let ghost cur = self.orders();
            let top = self.peek();
            match top {
                None => {
                    assert(taken + Seq::<EngineOfferBH>::empty() =~= taken);
                    break;
                },
                Some(o) => {
                    proof {
                        lemma_best(cur);
                    }
                    if let Some(price) = limit {
                        if let Some(p) = o.price {
                            if price > p {
                                assert(stops_at(limit, o));
                                assert(taken + Seq::<EngineOfferBH>::empty() =~= taken);
                                break;
                            }
                        }
                    }
                    assert(!stops_at(limit, o));
                    if o.amount > excedent {
                        let new_offer = o.into_offer(opposite_side, security);
                        self.reduce_top(excedent);
                        proof {
                            assert(taken + Seq::<EngineOfferBH>::empty() =~= taken);
                            assert forall|e: EngineOfferBH| #[trigger] self.orders().contains(e)
                                && opposite_side == Side::Sell implies e.price != Some(i64::MIN) by {
                                if e != (EngineOfferBH { amount: (o.amount - excedent) as u64, ..o }) {
                                    assert(cur.contains(e));
                                }
                            }
                        }
                        return MatchResult::Partial { offer: new_offer, to_substract: excedent };
                    }
                    let o2 = self.pop();
                    let o = o2.unwrap();
                    let m = o.into_offer(opposite_side, security);
                    let ghost before = matches@;
                    matches.push(m);
                    proof {
                        let t = taken.push(o);
                        assert forall|i: int| 0 <= i < t.len() implies offer_of_entry(
                            matches@[old(matches)@.len() + i],
                            #[trigger] t[i],
                            opposite_side,
                            security,
                        ) by {
                            if i < taken.len() {
                                assert(t[i] == taken[i]);
                            }
                        }
                        assert(reports(old(matches)@, matches@, t, opposite_side, security, false, offer));
                        taken = t;
                        assert forall|e: EngineOfferBH| #[trigger] self.orders().contains(e)
                            && opposite_side == Side::Sell implies e.price != Some(i64::MIN) by {
                            assert(cur.contains(e));
                        }
                    }
                    if o.amount == excedent {
                        if limit.is_none() {
                            matches.push(offer);
                        }
                        return MatchResult::Complete;
                    } else {
                        proof {
                            let inner = sweep(self.orders(), (excedent - o.amount) as u64, limit);
                            assert(sweep(cur, excedent, limit).filled == seq![o] + inner.filled);
                            assert(taken + inner.filled =~= (taken.drop_last()) + (seq![o] + inner.filled));
                        }
                        excedent = excedent - o.amount;
                    }
                },
            }
        }
        let new_offer = EngineOfferBH {
            price: EngineOfferBH::price_from_offer(&offer),
            amount: excedent,
            key: offer.key.to_u64(),
        };
        let ghost before_other = other.orders();
        other.push(new_offer);
        proof {
            assert forall|e: EngineOfferBH| #[trigger] other.orders().contains(e)
                && offer.value.side == Side::Sell implies e.price != Some(i64::MIN) by {
                if e != new_offer {
                    assert(before_other.contains(e));
                }
            }
        }
        if offer.value.amount == excedent {
            MatchResult::NoMatch
        } else {
            let to_substract = offer.value.amount - excedent;
            MatchResult::Partial { offer, to_substract }
        }
    }

    fn delete_key(self, key: &OfferKey) -> (r: Self) {
        let k = key.to_u64();
        let mut kept = BinaryHeapEngine::with_capacity(self.data.len());
        let mut i: usize = 0;
        while i < self.data.len()
            invariant
                0 <= i <= self.data.len(),
                kept.heap_inv(),
                k == key@,
                kept.orders() == self.data@.take(i as int).to_multiset().filter(
                    |e: EngineOfferBH| e.key != key@,
                ),
            decreases self.data.len() - i,
        {
            let e = self.data[i];
            proof {
                assert(self.data@.take(i + 1) =~= self.data@.take(i as int).push(e));
            }
            if e.key != k {
                kept.push(e);
            }
            i = i + 1;
            proof {
                let f = |x: EngineOfferBH| x.key != key@;
                assert(kept.orders() =~= self.data@.take(i as int).to_multiset().filter(f));
            }
        }
        proof {
            assert(self.data@.take(self.data.len() as int) =~= self.data@);
        }
        kept
    }
}

} // verus!
