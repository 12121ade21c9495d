//! An engine that keeps each side of the book as an ordered set, and
//! matches an incoming order against the part of the opposite side that
//! lies up to its limit, in increasing order.
use crate::typed_tree::{be_u64, u64_from_be_bytes};
use vstd::prelude::*;

verus! {

/// An order as this engine takes it, its price and amount already in
/// integer units.
#[derive(Debug)]
pub struct ScaledOffer {
    pub key: [u8; 8],
    pub buy: bool,
    pub price: Option<i64>,
    pub amount: u64,
}

/// A resting order: its price, its key as a counter, its open amount.
#[derive(Clone, Copy, Debug)]
pub struct EngineOffer {
    pub price: Option<i64>,
    pub key: u64,
    pub amount: u64,
}

/// Two resting orders are equal when their keys are.
impl PartialEq for EngineOffer {
    fn eq(&self, other: &Self) -> (r: bool) {
        self.key == other.key
    }
}

impl vstd::std_specs::cmp::PartialEqSpecImpl for EngineOffer {
    open spec fn obeys_eq_spec() -> bool {
        true
    }

    open spec fn eq_spec(&self, other: &Self) -> bool {
        self.key == other.key
    }
}

/// The order of prices in the set: no price first, then increasing prices.
pub open spec fn price_lt(a: Option<i64>, b: Option<i64>) -> bool {
    match (a, b) {
        (None, Some(_)) => true,
        (Some(x), Some(y)) => x < y,
        _ => false,
    }
}

/// The order of the set: by price, then key, then amount.
pub open spec fn offer_lt(a: EngineOffer, b: EngineOffer) -> bool {
    ||| price_lt(a.price, b.price)
    ||| a.price == b.price && a.key < b.key
    ||| a.price == b.price && a.key == b.key && a.amount < b.amount
}

/// `a` comes no later than `b` in the set's order.
pub open spec fn offer_le(a: EngineOffer, b: EngineOffer) -> bool {
    a == b || offer_lt(a, b)
}

/// The set's order is a strict total order.
pub proof fn lemma_offer_order(a: EngineOffer, b: EngineOffer, c: EngineOffer)
    ensures
        !offer_lt(a, a),
        offer_lt(a, b) ==> !offer_lt(b, a),
        a != b ==> offer_lt(a, b) || offer_lt(b, a),
        offer_lt(a, b) && offer_lt(b, c) ==> offer_lt(a, c),
{
}

/// Whether `a` comes strictly before `b` in the set's order.
pub fn offer_less(a: &EngineOffer, b: &EngineOffer) -> (r: bool)
    ensures
        r == offer_lt(*a, *b),
{
    let pl = match (a.price, b.price) {
        (None, Some(_)) => true,
        (Some(x), Some(y)) => x < y,
        _ => false,
    };
    let pe = match (a.price, b.price) {
        (None, None) => true,
        (Some(x), Some(y)) => x == y,
        _ => false,
    };
    pl || (pe && a.key < b.key) || (pe && a.key == b.key && a.amount < b.amount)
}

/// Whether `a` and `b` are the same resting order, field by field.
pub fn same_offer(a: &EngineOffer, b: &EngineOffer) -> (r: bool)
    ensures
        r == (*a == *b),
{
    let pe = match (a.price, b.price) {
        (None, None) => true,
        (Some(x), Some(y)) => x == y,
        _ => false,
    };
    pe && a.key == b.key && a.amount == b.amount
}

/// Strictly increasing in the set's order.
pub open spec fn sorted(s: Seq<EngineOffer>) -> bool {
    forall|i: int, j: int| 0 <= i < j < s.len() ==> offer_lt(#[trigger] s[i], #[trigger] s[j])
}

/// One side of the book: a set of resting orders kept in increasing order.
pub struct Offers {
    items: Vec<EngineOffer>,
}

impl View for Offers {
    type V = Set<EngineOffer>;

    open spec fn view(&self) -> Set<EngineOffer> {
        self.seq().to_set()
    }
}

impl Offers {
    /// The orders in increasing order.
    pub closed spec fn seq(&self) -> Seq<EngineOffer> {
        self.items@
    }

    /// The orders are kept strictly increasing.
    pub closed spec fn wf(&self) -> bool {
        sorted(self.items@)
    }

    /// An empty set.
    pub fn new() -> (r: Self)
        ensures
            r.wf(),
            r.seq() == Seq::<EngineOffer>::empty(),
            r@ == Set::<EngineOffer>::empty(),
    {
        let r = Offers { items: Vec::new() };
        assert(r@ =~= Set::<EngineOffer>::empty());
        r
    }

    /// The orders in increasing order.
    pub fn as_slice(&self) -> (r: &[EngineOffer])
        ensures
            r@ == self.seq(),
    {
        self.items.as_slice()
    }

    /// Adds `v` unless it is there already.
    pub fn insert(&mut self, v: EngineOffer)
        requires
            old(self).wf(),
        ensures
            final(self).wf(),
            final(self)@ == old(self)@.insert(v),
    {
        let ghost s = self.items@;
        let mut i: usize = 0;
        while i < self.items.len() && offer_less(&self.items[i], &v)
            invariant
                self.items@ == s,
                sorted(s),
                i <= s.len(),
                forall|j: int| 0 <= j < i ==> offer_lt(#[trigger] s[j], v),
            decreases s.len() - i,
        {
            i = i + 1;
        }
        if i < self.items.len() && same_offer(&self.items[i], &v) {
            proof {
                assert(s.contains(v));
                assert(self@ =~= s.to_set().insert(v));
            }
            return;
        }
        self.items.insert(i, v);
        proof {
            let t = self.items@;
            if i < s.len() {
                lemma_offer_order(s[i as int], v, s[i as int]);
            }
            assert forall|a: int, b: int| 0 <= a < b < t.len() implies offer_lt(
                #[trigger] t[a],
                #[trigger] t[b],
            ) by {
                if b < i {
                } else if b == i {
                } else if a < i {
                    lemma_offer_order(t[a], v, t[b]);
                    if b - 1 > i {
                        assert(offer_lt(s[i as int], s[b - 1]));
                        lemma_offer_order(v, s[i as int], s[b - 1]);
                    }
                } else if a == i {
                    if b - 1 > i {
                        assert(offer_lt(s[i as int], s[b - 1]));
                        lemma_offer_order(v, s[i as int], s[b - 1]);
                    }
                } else {
                    assert(t[a] == s[a - 1]);
                    assert(t[b] == s[b - 1]);
                }
            }
            assert forall|x: EngineOffer| #[trigger] t.contains(x) <==> s.contains(x) || x == v by {
                if t.contains(x) {
                    let k = choose|k: int| 0 <= k < t.len() && t[k] == x;
                    if k < i {
                        assert(s[k] == x);
                    } else if k > i {
                        assert(s[k - 1] == x);
                    }
                }
                if s.contains(x) {
                    let k = choose|k: int| 0 <= k < s.len() && s[k] == x;
                    if k < i {
                        assert(t[k] == x);
                    } else {
                        assert(t[k + 1] == x);
                    }
                }
                if x == v {
                    assert(t[i as int] == v);
                }
            }
            assert(self@ =~= s.to_set().insert(v));
        }
    }

    /// Removes `v` if it is there.
    pub fn remove(&mut self, v: &EngineOffer)
        requires
            old(self).wf(),
        ensures
            final(self).wf(),
            final(self)@ == old(self)@.remove(*v),
            final(self).seq().len() <= old(self).seq().len(),
    {
        let ghost s = self.items@;
        let mut i: usize = 0;
        while i < self.items.len() && !same_offer(&self.items[i], v)
            invariant
                self.items@ == s,
                sorted(s),
                i <= s.len(),
                forall|j: int| 0 <= j < i ==> #[trigger] s[j] != *v,
            decreases s.len() - i,
        {
            i = i + 1;
        }
        if i == self.items.len() {
            proof {
                assert(!s.contains(*v));
                assert(self@ =~= s.to_set().remove(*v));
            }
            return;
        }
        self.items.remove(i);
        proof {
            let t = self.items@;
            assert forall|a: int, b: int| 0 <= a < b < t.len() implies offer_lt(
                #[trigger] t[a],
                #[trigger] t[b],
            ) by {
                let a0 = if a < i { a } else { a + 1 };
                let b0 = if b < i { b } else { b + 1 };
                assert(t[a] == s[a0]);
                assert(t[b] == s[b0]);
            }
            assert forall|x: EngineOffer| #[trigger] t.contains(x) <==> s.contains(x) && x != *v by {
                if t.contains(x) {
                    let k = choose|k: int| 0 <= k < t.len() && t[k] == x;
                    let k0 = if k < i { k } else { k + 1 };
                    assert(s[k0] == x);
                    if x == *v {
                        lemma_offer_order(s[k0], s[i as int], s[k0]);
                    }
                }
                if s.contains(x) && x != *v {
                    let k = choose|k: int| 0 <= k < s.len() && s[k] == x;
                    if k < i {
                        assert(t[k] == x);
                    } else {
                        assert(k != i);
                        assert(t[k - 1] == x);
                    }
                }
            }
            assert(self@ =~= s.to_set().remove(*v));
        }
    }
}

/// Lies within `limit`: no later than it in the set's order (anything lies
/// within no limit).
pub open spec fn in_range(e: EngineOffer, limit: Option<EngineOffer>) -> bool {
    match limit {
        None => true,
        Some(l) => offer_le(e, l),
    }
}

/// The orders of `s` that lie within `limit`, in the order of `s`.
pub open spec fn range_of(s: Seq<EngineOffer>, limit: Option<EngineOffer>) -> Seq<EngineOffer> {
    s.filter(|e: EngineOffer| in_range(e, limit))
}

/// Whether `e` lies within `limit`.
pub fn within(e: &EngineOffer, limit: &Option<EngineOffer>) -> (r: bool)
    ensures
        r == in_range(*e, *limit),
{
    match limit {
        None => true,
        Some(l) => same_offer(e, l) || offer_less(e, l),
    }
}

/// Filtering a sequence by a predicate that holds exactly on a prefix keeps
/// that prefix.
proof fn lemma_filter_prefix(s: Seq<EngineOffer>, p: spec_fn(EngineOffer) -> bool, n: int)
    requires
        0 <= n <= s.len(),
        forall|i: int| 0 <= i < n ==> p(#[trigger] s[i]),
        forall|i: int| n <= i < s.len() ==> !p(#[trigger] s[i]),
    ensures
        s.filter(p) == s.take(n),
    decreases s.len(),
{
    reveal(Seq::filter);
    if s.len() == 0 {
        assert(s.take(n) =~= s);
    } else if s.len() > n {
        let d = s.drop_last();
        assert forall|i: int| 0 <= i < n implies p(#[trigger] d[i]) by {
            assert(d[i] == s[i]);
        }
        assert forall|i: int| n <= i < d.len() implies !p(#[trigger] d[i]) by {
            assert(d[i] == s[i]);
        }
        lemma_filter_prefix(d, p, n);
        assert(!p(s.last()));
        assert(s.filter(p) == d.filter(p));
        assert(d.take(n) =~= s.take(n));
    } else {
        let d = s.drop_last();
        assert forall|i: int| 0 <= i < n - 1 implies p(#[trigger] d[i]) by {
            assert(d[i] == s[i]);
        }
        lemma_filter_prefix(d, p, n - 1);
        assert(p(s[n - 1]));
        assert(s.last() == s[n - 1]);
        assert(s.filter(p) == d.filter(p).push(s.last()));
        assert(d.take(n - 1).push(s.last()) =~= s.take(n));
    }
}

/// How matching against a range ended.
#[derive(Debug)]
pub enum MatchResult {
    /// The last order taken had exactly the amount still wanted.
    Complete,
    /// The order was larger than the amount still wanted (the second field);
    /// that much is taken from it.
    Partial(EngineOffer, u64),
    /// The range ran out with the given amount still wanted.
    PartialSame(u64),
}

/// Matching `excedent` units against `range`, in its order: the orders taken
/// whole, and how it ended.
pub open spec fn scan(range: Seq<EngineOffer>, excedent: u64) -> (Seq<EngineOffer>, MatchResult)
    decreases range.len(),
{
    if range.len() == 0 {
        (Seq::empty(), MatchResult::PartialSame(excedent))
    } else {
        let o = range[0];
        if o.amount > excedent {
            (Seq::empty(), MatchResult::Partial(o, excedent))
        } else if o.amount == excedent {
            (seq![o], MatchResult::Complete)
        } else {
            let r = scan(range.drop_first(), (excedent - o.amount) as u64);
            (seq![o] + r.0, r.1)
        }
    }
}

/// A partly matched order is larger than what was still wanted.
proof fn lemma_scan_partial(range: Seq<EngineOffer>, excedent: u64)
    ensures
        scan(range, excedent).1 matches MatchResult::Partial(p, e) ==> p.amount > e,
    decreases range.len(),
{
    if range.len() > 0 && range[0].amount < excedent {
        lemma_scan_partial(range.drop_first(), (excedent - range[0].amount) as u64);
    }
}

/// The resting order that `excedent` units of `offer` become.
pub open spec fn entry_of_offer(offer: ScaledOffer, excedent: u64) -> EngineOffer {
    EngineOffer { price: offer.price, amount: excedent, key: be_u64(offer.key@) as u64 }
}

/// The greatest resting order that an incoming order at `price` may match:
/// buy prices as they are, sell prices negated.
pub open spec fn limit_of(price: i64, is_buy_offer: bool) -> EngineOffer {
    EngineOffer {
        price: Some(
            if is_buy_offer {
                price
            } else {
                (-price) as i64
            },
        ),
        key: u64::MAX,
        amount: u64::MAX,
    }
}

impl EngineOffer {
    /// The resting order that `excedent` units of `offer` become.
    pub fn from_offer_data(offer: &ScaledOffer, excedent: u64) -> (r: Self)
        ensures
            r == entry_of_offer(*offer, excedent),
    {
        EngineOffer { price: offer.price, amount: excedent, key: u64_from_be_bytes(offer.key) }
    }

    /// The greatest resting order that an incoming order at `price` may
    /// match.
    pub fn range_limit(price: i64, is_buy_offer: bool) -> (r: Self)
        requires
            is_buy_offer || price != i64::MIN,
        ensures
            r == limit_of(price, is_buy_offer),
    {
        let price = if is_buy_offer {
            price
        } else {
            -price
        };
        EngineOffer { price: Some(price), key: u64::MAX, amount: u64::MAX }
    }
}

/// Matches `offer` against `range` in its order, appending the orders taken
/// whole to `matches`.
pub fn match_offer(matches: &mut Vec<EngineOffer>, offer: &ScaledOffer, range: &[EngineOffer]) -> (r:
    MatchResult)
    ensures
        final(matches)@ == old(matches)@ + scan(range@, offer.amount).0,
        r == scan(range@, offer.amount).1,
{
    let mut excedent = offer.amount;
    let mut i: usize = 0;
    let ghost mut taken: Seq<EngineOffer> = Seq::empty();
    proof {
        assert(range@.skip(0) =~= range@);
        assert(matches@ =~= old(matches)@ + taken);
        assert(taken + scan(range@, offer.amount).0 =~= scan(range@, offer.amount).0);
    }
    while i < range.len()
        invariant
            i <= range@.len(),
            matches@ == old(matches)@ + taken,
            scan(range@, offer.amount).0 == taken + scan(range@.skip(i as int), excedent).0,
            scan(range@, offer.amount).1 == scan(range@.skip(i as int), excedent).1,
        decreases range@.len() - i,
    {
        let o = range[i];
        let ghost rest = range@.skip(i as int);
        assert(rest[0] == o);
        if o.amount > excedent {
            assert(taken + Seq::<EngineOffer>::empty() =~= taken);
            return MatchResult::Partial(o, excedent);
        } else if o.amount == excedent {
            matches.push(o);
            proof {
                assert(matches@ =~= old(matches)@ + (taken + seq![o]));
            }
            return MatchResult::Complete;
        } else {
            excedent = excedent - o.amount;
            matches.push(o);
            proof {
                assert(rest.drop_first() =~= range@.skip(i + 1));
                let t = taken + seq![o];
                assert(matches@ =~= old(matches)@ + t);
                assert(taken + (seq![o] + scan(range@.skip(i + 1), excedent).0) =~= t + scan(
                    range@.skip(i + 1),
                    excedent,
                ).0);
                taken = t;
            }
            i = i + 1;
        }
    }
    proof {
        assert(range@.skip(i as int).len() == 0);
        assert(taken + Seq::<EngineOffer>::empty() =~= taken);
    }
    MatchResult::PartialSame(excedent)
}

impl Offers {
    /// How many of the orders, from the first, lie within `limit`: they are
    /// exactly the range of the set up to `limit`.
    pub fn range_end(&self, limit: &Option<EngineOffer>) -> (n: usize)
        requires
            self.wf(),
        ensures
            n <= self.seq().len(),
            self.seq().take(n as int) == range_of(self.seq(), *limit),
    {
        let ghost s = self.items@;
        let mut n: usize = 0;
        while n < self.items.len() && within(&self.items[n], limit)
            invariant
                self.items@ == s,
                n <= s.len(),
                forall|i: int| 0 <= i < n ==> in_range(#[trigger] s[i], *limit),
            decreases s.len() - n,
        {
            n = n + 1;
        }
        proof {
            let p = |e: EngineOffer| in_range(e, *limit);
            assert forall|i: int| n <= i < s.len() implies !p(#[trigger] s[i]) by {
                if i > n {
                    assert(offer_lt(s[n as int], s[i]));
                    if let Some(l) = *limit {
                        lemma_offer_order(s[n as int], s[i], l);
                    }
                }
            }
            lemma_filter_prefix(s, p, n as int);
        }
        n
    }
}

/// Processing `offer` against the opposite side `opp` (in increasing order
/// `opp_seq`) with own side `same` leaves `opp_after` and `same_after`: the
/// range of `opp` up to the offer's limit is matched in increasing order;
/// the orders taken whole leave `opp`; a partly matched order comes back
/// reduced (beside the order it was, which stays); what is left of the
/// offer, if the range ran out, rests on its own side.
pub open spec fn btree_matched(
    opp_seq: Seq<EngineOffer>,
    same: Set<EngineOffer>,
    offer: ScaledOffer,
    opp_after: Set<EngineOffer>,
    same_after: Set<EngineOffer>,
) -> bool {
    let limit = match offer.price {
        None => None,
        Some(p) => Some(limit_of(p, offer.buy)),
    };
    let m = scan(range_of(opp_seq, limit), offer.amount);
    let removed = opp_seq.to_set().difference(m.0.to_set());
    &&& opp_after == match m.1 {
        MatchResult::Partial(p, e) => removed.insert(
            EngineOffer { amount: (p.amount - e) as u64, ..p },
        ),
        _ => removed,
    }
    &&& same_after == match m.1 {
        MatchResult::PartialSame(e) => same.insert(entry_of_offer(offer, e)),
        _ => same,
    }
}

/// The price of a sell offer can be negated.
pub open spec fn scaled_price_fits(offer: ScaledOffer) -> bool {
    !offer.buy ==> offer.price != Some(i64::MIN)
}

/// Matches `offer` against `opp`, the opposite side, and rests what is left
/// of it on `same`, its own side.
fn process_sides(
    matches: &mut Vec<EngineOffer>,
    offer: &ScaledOffer,
    same: &mut Offers,
    opp: &mut Offers,
)
    requires
        old(same).wf(),
        old(opp).wf(),
        old(matches)@.len() == 0,
        scaled_price_fits(*offer),
    ensures
        final(same).wf(),
        final(opp).wf(),
        final(matches)@.len() == 0,
        btree_matched(old(opp).seq(), old(same)@, *offer, final(opp)@, final(same)@),
{
    let is_buy_offer = offer.buy;
    let limit = match offer.price {
        Some(price) => Some(EngineOffer::range_limit(price, is_buy_offer)),
        None => None,
    };
    let n = opp.range_end(&limit);
    let match_result = match_offer(matches, offer, &opp.as_slice()[0..n]);
    let ghost m = matches@;
    let ghost s0 = opp@;
    proof {
        assert(opp.seq().take(n as int) =~= opp.seq().subrange(0, n as int));
        assert(m =~= scan(range_of(opp.seq(), limit), offer.amount).0);
    }
    let mut i: usize = 0;
    while i < matches.len()
        invariant
            opp.wf(),
            matches@ == m,
            i <= m.len(),
            opp@ == s0.difference(m.take(i as int).to_set()),
        decreases m.len() - i,
    {
        let ghost before = opp@;
        opp.remove(&matches[i]);
        proof {
            assert(m.take(i + 1) =~= m.take(i as int).push(m[i as int]));
            m.take(i as int).lemma_push_to_set_commute(m[i as int]);
            assert(m.take(i + 1).to_set() =~= m.take(i as int).to_set().insert(m[i as int]));
            assert(opp@ =~= s0.difference(m.take(i + 1).to_set()));
        }
        i = i + 1;
    }
    proof {
        assert(m.take(m.len() as int) =~= m);
    }
    proof {
        lemma_scan_partial(range_of(old(opp).seq(), limit), offer.amount);
    }
    match match_result {
        MatchResult::Partial(partial, excedent) => {
            let mut new_offer = partial;
            new_offer.amount = new_offer.amount - excedent;
            opp.insert(new_offer);
        },
        MatchResult::PartialSame(excedent) => {
            same.insert(EngineOffer::from_offer_data(offer, excedent));
        },
        MatchResult::Complete => {},
    }
    matches.clear();
}

/// The engine: both sides of the book, and the orders taken whole by the
/// order in progress.
pub struct Engine {
    sell_offers: Offers,
    buy_offers: Offers,
    matches: Vec<EngineOffer>,
}

impl Engine {
    /// Both sides are well formed and no order is pending.
    pub closed spec fn wf(&self) -> bool {
        &&& self.sell_offers.wf()
        &&& self.buy_offers.wf()
        &&& self.matches@.len() == 0
    }

    /// The sell side, in increasing order.
    pub closed spec fn sell_seq(&self) -> Seq<EngineOffer> {
        self.sell_offers.seq()
    }

    /// The buy side, in increasing order.
    pub closed spec fn buy_seq(&self) -> Seq<EngineOffer> {
        self.buy_offers.seq()
    }

    /// An engine with empty books.
    pub fn new() -> (r: Self)
        ensures
            r.wf(),
            r.sell_seq() == Seq::<EngineOffer>::empty(),
            r.buy_seq() == Seq::<EngineOffer>::empty(),
    {
        Engine { sell_offers: Offers::new(), buy_offers: Offers::new(), matches: Vec::new() }
    }

    /// The sell side.
    pub fn sell_offers(&self) -> (r: &Offers)
        ensures
            r.seq() == self.sell_seq(),
            self.wf() ==> r.wf(),
    {
        &self.sell_offers
    }

    /// The buy side.
    pub fn buy_offers(&self) -> (r: &Offers)
        ensures
            r.seq() == self.buy_seq(),
            self.wf() ==> r.wf(),
    {
        &self.buy_offers
    }

    /// Matches `offer` against the opposite side and rests what is left of
    /// it on its own side.
    pub fn process_offer(&mut self, offer: ScaledOffer)
        requires
            old(self).wf(),
            scaled_price_fits(offer),
        ensures
            final(self).wf(),
            offer.buy ==> btree_matched(
                old(self).sell_seq(),
                old(self).buy_seq().to_set(),
                offer,
                final(self).sell_seq().to_set(),
                final(self).buy_seq().to_set(),
            ),
            !offer.buy ==> btree_matched(
                old(self).buy_seq(),
                old(self).sell_seq().to_set(),
                offer,
                final(self).buy_seq().to_set(),
                final(self).sell_seq().to_set(),
            ),
    {
        let is_buy_offer = offer.buy;
        if is_buy_offer {
            process_sides(&mut self.matches, &offer, &mut self.buy_offers, &mut self.sell_offers);
        } else {
            process_sides(&mut self.matches, &offer, &mut self.sell_offers, &mut self.buy_offers);
        }
    }
}

/// The sum of the amounts of a sequence of resting orders.
pub open spec fn amount_total(s: Seq<EngineOffer>) -> int
    decreases s.len(),
{
    if s.len() == 0 {
        0
    } else {
        s[0].amount + amount_total(s.drop_first())
    }
}

/// Matching over a range conserves quantity: the orders taken whole, plus
/// what is taken from a partly matched order or what is left over, make up
/// the amount wanted; and the orders taken whole are the first ones of the
/// range, in its order.
pub proof fn law_scan_conserves_amount(range: Seq<EngineOffer>, excedent: u64)
    ensures
        amount_total(scan(range, excedent).0) + match scan(range, excedent).1 {
            MatchResult::Complete => 0,
            MatchResult::Partial(_, e) => e as int,
            MatchResult::PartialSame(e) => e as int,
        } == excedent,
        scan(range, excedent).0.len() <= range.len(),
        scan(range, excedent).0 == range.take(scan(range, excedent).0.len() as int),
    decreases range.len(),
{
    if range.len() > 0 {
        let o = range[0];
        if o.amount == excedent {
            assert(seq![o].drop_first() =~= Seq::<EngineOffer>::empty());
            assert(amount_total(Seq::<EngineOffer>::empty()) == 0);
            assert(amount_total(seq![o]) == o.amount);
            assert(seq![o] =~= range.take(1));
        } else if o.amount < excedent {
            let rest = range.drop_first();
            let rem = (excedent - o.amount) as u64;
            law_scan_conserves_amount(rest, rem);
            let r = scan(rest, rem);
            assert((seq![o] + r.0).drop_first() =~= r.0);
            assert(amount_total(seq![o] + r.0) == o.amount + amount_total(r.0));
            assert forall|k: int| 0 <= k < r.0.len() + 1 implies #[trigger] (seq![o] + r.0)[k]
                == range.take(r.0.len() as int + 1)[k] by {
                if k > 0 {
                    assert(r.0[k - 1] == rest.take(r.0.len() as int)[k - 1]);
                    assert(rest[k - 1] == range[k]);
                }
            }
            assert(seq![o] + r.0 =~= range.take(r.0.len() as int + 1));
        } else {
            assert(amount_total(Seq::<EngineOffer>::empty()) == 0);
            assert(Seq::<EngineOffer>::empty() =~= range.take(0));
        }
    } else {
        assert(amount_total(Seq::<EngineOffer>::empty()) == 0);
        assert(Seq::<EngineOffer>::empty() =~= range.take(0));
    }
}

/// The range up to an order's limit is every resting order at market, and
/// every priced resting order whose price is at most the limit price (the
/// order's price, negated for a sell) — the limit price itself included;
/// with no limit, every order is in range.
pub proof fn law_range_reaches_limit_price(e: EngineOffer, price: i64, is_buy_offer: bool)
    requires
        is_buy_offer || price != i64::MIN,
    ensures
        in_range(e, None),
        in_range(e, Some(limit_of(price, is_buy_offer))) <==> match e.price {
            None => true,
            Some(x) => x <= if is_buy_offer {
                price as int
            } else {
                -price
            },
        },
{
}

} // verus!
