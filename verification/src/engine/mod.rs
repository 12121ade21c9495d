pub mod book;
pub mod engine_bheap;

use crate::engine::book::{
    book_total, end_amount, law_sweep_conserves_amount, law_sweep_stops_for_a_reason,
    law_sweep_takes_amounts, lemma_book_total_insert, lemma_book_total_remove, lemma_total_nonneg,
    sweep, total, Fill,
};
use crate::engine::engine_bheap::EngineOfferBH;
use crate::offers::{opposite, Offer, OfferKey, OfferValue, Security, Side};
use crossbeam_channel::{Receiver, Sender};
use vstd::multiset::Multiset;
use vstd::prelude::*;

verus! {

/// How an incoming order fared against the opposite side of the book.
#[derive(Debug)]
pub enum MatchResult {
    /// The incoming order was filled completely.
    Complete,
    /// `to_substract` units of `offer` were traded: of the resting order
    /// that was too large to take whole, or of the incoming order, whose
    /// rest then rests on its side.
    Partial { offer: Offer, to_substract: u64 },
    /// Nothing was traded.
    NoMatch,
}

/// What one incoming order produced: how it fared, and the orders it filled
/// completely.
#[derive(Debug)]
pub struct Matches {
    pub result: MatchResult,
    pub completed: Vec<Offer>,
}

/// `p` read as a signed number in two's complement.
pub open spec fn wrap_i64(p: u64) -> int {
    if p <= i64::MAX {
        p as int
    } else {
        p - 0x1_0000_0000_0000_0000int
    }
}

/// `p` read back as the unsigned number whose two's complement it is.
pub open spec fn unwrap_u64(p: int) -> u64 {
    if p >= 0 {
        p as u64
    } else {
        (p + 0x1_0000_0000_0000_0000int) as u64
    }
}

/// The price of an order as its side of the book keeps it: buy prices as
/// they are, sell prices negated, so that on either side a better price is
/// a greater number. `None` for a market order.
pub open spec fn signed_limit(v: OfferValue) -> Option<i64> {
    match v.price {
        None => None,
        Some(p) => Some(
            match v.side {
                Side::Buy => wrap_i64(p) as i64,
                Side::Sell => (-wrap_i64(p)) as i64,
            },
        ),
    }
}

/// The price can be signed: a sell price whose two's complement is the most
/// negative number cannot be negated.
pub open spec fn price_fits(v: OfferValue) -> bool {
    v.side == Side::Sell ==> v.price != Some(0x8000_0000_0000_0000u64)
}

/// The unsigned price of a resting order on side `side`.
pub open spec fn unsigned_price(p: i64, side: Side) -> u64 {
    match side {
        Side::Buy => unwrap_u64(p as int),
        Side::Sell => unwrap_u64(-(p as int)),
    }
}

/// Every order of a book of side `side` has a price that reads back.
pub open spec fn side_ok(side: Side, book: Multiset<EngineOfferBH>) -> bool {
    side == Side::Sell ==> forall|e: EngineOfferBH| #[trigger] book.contains(e) ==> e.price != Some(
        i64::MIN,
    )
}

/// `o` is the order that the resting order `e` of side `side` stands for.
pub open spec fn offer_of_entry(o: Offer, e: EngineOfferBH, side: Side, security: Security) -> bool {
    &&& o.key@ == e.key
    &&& o.value.side == side
    &&& o.value.security == security
    &&& o.value.amount == e.amount
    &&& o.value.price == match e.price {
        None => None,
        Some(p) => Some(unsigned_price(p, side)),
    }
}

/// The resting order that `amount` units of the incoming order `offer` become.
pub open spec fn entry_of(offer: Offer, amount: u64) -> EngineOfferBH {
    EngineOfferBH { price: signed_limit(offer.value), key: offer.key@, amount }
}

/// `after` is `before` followed by the orders that `filled` stand for, on
/// side `side` and of security `security`, and then, if `extra`, by `offer`.
pub open spec fn reports(
    before: Seq<Offer>,
    after: Seq<Offer>,
    filled: Seq<EngineOfferBH>,
    side: Side,
    security: Security,
    extra: bool,
    offer: Offer,
) -> bool {
    &&& after.len() == before.len() + filled.len() + if extra {
        1int
    } else {
        0int
    }
    &&& forall|i: int| 0 <= i < before.len() ==> after[i] == before[i]
    &&& forall|i: int|
        0 <= i < filled.len() ==> offer_of_entry(
            after[before.len() + i],
            #[trigger] filled[i],
            side,
            security,
        )
    &&& extra ==> after[after.len() - 1] == offer
}

/// Matching `offer` against the opposite side `opp` of the book, with `same`
/// its own side: `opp` is swept for the offer's amount up to its price; an
/// order left larger than what is wanted is reduced; the orders taken whole
/// are reported after `before` (and a market order filled exactly is
/// reported last); what is left of the offer rests on its own side; and the
/// result says how the offer fared.
pub open spec fn matched(
    opp: Multiset<EngineOfferBH>,
    same: Multiset<EngineOfferBH>,
    before: Seq<Offer>,
    offer: Offer,
    opp_after: Multiset<EngineOfferBH>,
    same_after: Multiset<EngineOfferBH>,
    after: Seq<Offer>,
    r: MatchResult,
) -> bool {
    let amount = offer.value.amount;
    let s = sweep(opp, amount, signed_limit(offer.value));
    let side = opposite(offer.value.side);
    let security = offer.value.security;
    &&& reports(
        before,
        after,
        s.filled,
        side,
        security,
        s.end is Exact && offer.value.price is None,
        offer,
    )
    &&& match s.end {
        Fill::Exact => {
            &&& opp_after == s.rest
            &&& same_after == same
            &&& r is Complete
        },
        Fill::Partial { top, taken } => {
            &&& opp_after == s.rest.remove(top).insert(
                EngineOfferBH { amount: (top.amount - taken) as u64, ..top },
            )
            &&& same_after == same
            &&& r matches MatchResult::Partial { offer: o, to_substract } && to_substract == taken
                && offer_of_entry(o, top, side, security)
        },
        Fill::Halted { remaining } => {
            &&& opp_after == s.rest
            &&& same_after == same.insert(entry_of(offer, remaining))
            &&& if remaining == amount {
                r is NoMatch
            } else {
                r == MatchResult::Partial { offer, to_substract: (amount - remaining) as u64 }
            }
        },
    }
}

/// A side of the order book.
pub trait EngineDataStruct: Sized {
    /// The orders on this side.
    spec fn book(&self) -> Multiset<EngineOfferBH>;

    /// The structure is well formed.
    spec fn inv(&self) -> bool;

    /// Matches `offer` against this side, the opposite one of the offer;
    /// `other` is the offer's own side.
    fn match_offer(&mut self, matches: &mut Vec<Offer>, offer: Offer, other: &mut Self) -> (r:
        MatchResult)
        requires
            old(self).inv(),
            old(other).inv(),
            price_fits(offer.value),
            side_ok(opposite(offer.value.side), old(self).book()),
            side_ok(offer.value.side, old(other).book()),
        ensures
            final(self).inv(),
            final(other).inv(),
            side_ok(opposite(offer.value.side), final(self).book()),
            side_ok(offer.value.side, final(other).book()),
            matched(
                old(self).book(),
                old(other).book(),
                old(matches)@,
                offer,
                final(self).book(),
                final(other).book(),
                final(matches)@,
                r,
            ),
    ;

    /// This side without the orders under `key`.
    fn delete_key(self, key: &OfferKey) -> (r: Self)
        requires
            self.inv(),
        ensures
            r.inv(),
            r.book() == self.book().filter(|e: EngineOfferBH| e.key != key@),
    ;

    /// An empty side with room for `capacity` orders.
    fn with_capacity(capacity: usize) -> (r: Self)
        ensures
            r.inv(),
            r.book() == Multiset::<EngineOfferBH>::empty(),
    ;
}

/// Whether `v` can be matched: see `price_fits`.
pub fn price_fits_check(v: &OfferValue) -> (r: bool)
    ensures
        r == price_fits(*v),
{
    match v.side {
        Side::Sell => match v.price {
            Some(p) => p != 0x8000_0000_0000_0000u64,
            None => true,
        },
        Side::Buy => true,
    }
}

/// What the engine's run does after it has processed an order.
#[derive(Debug)]
pub enum StartAction {
    /// Nothing traded: nothing is reported.
    Skip,
    /// The report is sent and `counter` reports have now been sent; every
    /// tenth one is announced (`report`), and after the `count`-th one the
    /// run sends the end marker and stops (`finish`).
    Send { counter: usize, report: bool, finish: bool },
    /// The report counter cannot count further.
    Overflow,
}

/// The action after an order that fared as `result`, with `counter` reports
/// sent so far out of the `count` the run is to send.
pub open spec fn start_action_spec(counter: usize, count: usize, result: MatchResult) -> StartAction {
    if result is NoMatch {
        StartAction::Skip
    } else if counter == usize::MAX {
        StartAction::Overflow
    } else {
        StartAction::Send {
            counter: (counter + 1) as usize,
            report: (counter + 1) % 10 == 0,
            finish: counter + 1 == count,
        }
    }
}

/// Decides what the engine's run does after an order that fared as
/// `result`.
pub fn next_start_action(counter: usize, count: usize, result: &MatchResult) -> (a: StartAction)
    ensures
        a == start_action_spec(counter, count, *result),
{
    match result {
        MatchResult::NoMatch => StartAction::Skip,
        _ => {
            if counter == usize::MAX {
                StartAction::Overflow
            } else {
                let c = counter + 1;
                StartAction::Send { counter: c, report: c % 10 == 0, finish: c == count }
            }
        },
    }
}

/// How many reports a run sends while it processes orders that fare as
/// `results`, in that order, having sent `counter` of the `count` it is to
/// send; the run stops after the `count`-th report (and on overflow).
pub open spec fn run_reports(results: Seq<MatchResult>, counter: usize, count: usize) -> nat
    decreases results.len(),
{
    if results.len() == 0 {
        0
    } else {
        match start_action_spec(counter, count, results[0]) {
            StartAction::Skip => run_reports(results.drop_first(), counter, count),
            StartAction::Overflow => 0,
            StartAction::Send { counter: c, finish, .. } => 1 + if finish {
                0nat
            } else {
                run_reports(results.drop_first(), c, count)
            },
        }
    }
}

/// A run that is to send `count` reports sends at most that many besides
/// its end marker, whatever the orders; each report it sends is for an
/// order that traded; and it stops right after the `count`-th.
pub proof fn law_run_reports_at_most_count(results: Seq<MatchResult>, counter: usize, count: usize)
    requires
        counter < count,
    ensures
        counter + run_reports(results, counter, count) <= count,
        forall|r: MatchResult|
            #[trigger] start_action_spec(counter, count, r) is Send ==> !(r is NoMatch),
        forall|r: MatchResult|
            #[trigger] start_action_spec(counter, count, r) matches StartAction::Send {
                counter: c,
                finish,
                ..
            } ==> c == counter + 1 && c <= count && (finish <==> c == count),
    decreases results.len(),
{
    if results.len() > 0 {
        match start_action_spec(counter, count, results[0]) {
            StartAction::Send { counter: c, finish, .. } => {
                if !finish {
                    law_run_reports_at_most_count(results.drop_first(), c, count);
                }
            },
            StartAction::Skip => {
                law_run_reports_at_most_count(results.drop_first(), counter, count);
            },
            StartAction::Overflow => {},
        }
    }
}

/// What a step of the engine's run made of what it received.
#[derive(Debug)]
pub enum Received {
    /// The order channel is empty and closed.
    Disconnected,
    /// The order has a sell price that cannot be signed.
    Rejected,
    /// The order was processed: its report, and what to do with it.
    Processed(Matches, StartAction),
}

#[verifier::external_type_specification]
#[verifier::external_body]
#[verifier::reject_recursive_types(T)]
pub struct ExReceiver<T>(crossbeam_channel::Receiver<T>);

#[verifier::external_type_specification]
#[verifier::external_body]
#[verifier::reject_recursive_types(T)]
pub struct ExSender<T>(crossbeam_channel::Sender<T>);

/// The matching engine: both sides of the book, the orders filled by the
/// order in progress, and the channels it takes orders from and reports
/// matches to.
pub struct Engine<T> where T: EngineDataStruct {
    sell_offers: T,
    buy_offers: T,
    matches: Vec<Offer>,
    receiver: Receiver<Offer>,
    sender: Sender<Matches>,
}

impl<T> Engine<T> where T: EngineDataStruct {
    /// The sell side of the book.
    pub closed spec fn sell_book(&self) -> Multiset<EngineOfferBH> {
        self.sell_offers.book()
    }

    /// The buy side of the book.
    pub closed spec fn buy_book(&self) -> Multiset<EngineOfferBH> {
        self.buy_offers.book()
    }

    /// Both sides are well formed, their prices read back, and no order is
    /// pending report.
    pub closed spec fn wf(&self) -> bool {
        &&& self.sell_offers.inv()
        &&& self.buy_offers.inv()
        &&& side_ok(Side::Sell, self.sell_offers.book())
        &&& side_ok(Side::Buy, self.buy_offers.book())
        &&& self.matches@.len() == 0
    }

    /// An engine with empty books, taking orders from `receiver` and
    /// reporting to `sender`.
    pub fn new(receiver: Receiver<Offer>, sender: Sender<Matches>) -> (r: Self)
        ensures
            r.wf(),
            r.sell_book() == Multiset::<EngineOfferBH>::empty(),
            r.buy_book() == Multiset::<EngineOfferBH>::empty(),
            r.receiver_spec() == receiver,
            r.sender_spec() == sender,
    {
        Engine {
            sell_offers: T::with_capacity(24),
            buy_offers: T::with_capacity(24),
            matches: Vec::with_capacity(24),
            sender,
            receiver,
        }
    }

    /// Matches `offer` against the opposite side of the book and rests
    /// what is left of it on its own side.
    pub fn process_offer(&mut self, offer: Offer) -> (r: Matches)
        requires
            old(self).wf(),
            price_fits(offer.value),
        ensures
            final(self).wf(),
            processed(
                old(self).buy_book(),
                old(self).sell_book(),
                offer,
                final(self).buy_book(),
                final(self).sell_book(),
                r,
            ),
    {
        let side = offer.value.side;
        let result = match side {
            Side::Buy => self.sell_offers.match_offer(&mut self.matches, offer, &mut self.buy_offers),
            Side::Sell => self.buy_offers.match_offer(&mut self.matches, offer, &mut self.sell_offers),
        };
        let mut completed: Vec<Offer> = Vec::new();
        std::mem::swap(&mut completed, &mut self.matches);
        Matches { completed, result }
    }

    /// One step of the engine's run, given what it received from its order
    /// channel: nothing when the channel is closed (`None`); a refusal when
    /// the order's sell price cannot be signed; otherwise the order is
    /// processed, and its report comes back with the action to take for it.
    pub fn handle_received(&mut self, received: Option<Offer>, counter: usize, count: usize) -> (r:
        Received)
        requires
            old(self).wf(),
        ensures
            final(self).wf(),
            match received {
                None => r is Disconnected && final(self).buy_book() == old(self).buy_book()
                    && final(self).sell_book() == old(self).sell_book(),
                Some(o) => if !price_fits(o.value) {
                    r is Rejected && final(self).buy_book() == old(self).buy_book()
                        && final(self).sell_book() == old(self).sell_book()
                } else {
                    r matches Received::Processed(m, a) && processed(
                        old(self).buy_book(),
                        old(self).sell_book(),
                        o,
                        final(self).buy_book(),
                        final(self).sell_book(),
                        m,
                    ) && a == start_action_spec(counter, count, m.result)
                },
            },
    {
        let offer = match received {
            None => return Received::Disconnected,
            Some(offer) => offer,
        };
        if !price_fits_check(&offer.value) {
            return Received::Rejected;
        }
        let matches = self.process_offer(offer);
        let action = next_start_action(counter, count, &matches.result);
        Received::Processed(matches, action)
    }

    /// The channel the engine takes orders from.
    pub fn receiver(&self) -> (r: &Receiver<Offer>)
        ensures
            *r == self.receiver_spec(),
    {
        &self.receiver
    }

    /// The channel the engine reports to.
    pub fn sender(&self) -> (r: &Sender<Matches>)
        ensures
            *r == self.sender_spec(),
    {
        &self.sender
    }

    /// The channel the engine takes orders from.
    pub closed spec fn receiver_spec(&self) -> Receiver<Offer> {
        self.receiver
    }

    /// The channel the engine reports to.
    pub closed spec fn sender_spec(&self) -> Sender<Matches> {
        self.sender
    }
}

/// The report that ends a run: no order filled, and nothing traded.
pub fn end_marker() -> (m: Matches)
    ensures
        m.completed@.len() == 0,
        m.result is NoMatch,
{
    Matches { completed: Vec::new(), result: MatchResult::NoMatch }
}

/// Processing `offer` on a book with sides `buy` and `sell` leaves sides
/// `buy_after` and `sell_after` and reports `m`: the offer is matched
/// against the opposite side, its own side keeps what is left of it, and
/// the report starts from no order.
pub open spec fn processed(
    buy: Multiset<EngineOfferBH>,
    sell: Multiset<EngineOfferBH>,
    offer: Offer,
    buy_after: Multiset<EngineOfferBH>,
    sell_after: Multiset<EngineOfferBH>,
    m: Matches,
) -> bool {
    match offer.value.side {
        Side::Buy => matched(
            sell,
            buy,
            Seq::empty(),
            offer,
            sell_after,
            buy_after,
            m.completed@,
            m.result,
        ),
        Side::Sell => matched(
            buy,
            sell,
            Seq::empty(),
            offer,
            buy_after,
            sell_after,
            m.completed@,
            m.result,
        ),
    }
}

/// The sum of the amounts of a sequence of orders.
pub open spec fn offers_amount(s: Seq<Offer>) -> int
    decreases s.len(),
{
    if s.len() == 0 {
        0
    } else {
        s[0].value.amount + offers_amount(s.drop_first())
    }
}

proof fn lemma_reported_amounts(
    after: Seq<Offer>,
    start: int,
    filled: Seq<EngineOfferBH>,
    side: Side,
    security: Security,
)
    requires
        0 <= start,
        start + filled.len() <= after.len(),
        forall|i: int|
            0 <= i < filled.len() ==> offer_of_entry(
                after[start + i],
                #[trigger] filled[i],
                side,
                security,
            ),
    ensures
        offers_amount(after.subrange(start, start + filled.len())) == total(filled),
    decreases filled.len(),
{
    let sub = after.subrange(start, start + filled.len());
    if filled.len() > 0 {
        let rest = filled.drop_first();
        assert forall|i: int| 0 <= i < rest.len() implies offer_of_entry(
            after[start + 1 + i],
            #[trigger] rest[i],
            side,
            security,
        ) by {
            assert(rest[i] == filled[i + 1]);
            assert(offer_of_entry(after[start + (i + 1)], filled[i + 1], side, security));
        }
        lemma_reported_amounts(after, start + 1, rest, side, security);
        assert(sub.drop_first() =~= after.subrange(start + 1, start + 1 + rest.len()));
        assert(offer_of_entry(after[start + 0], filled[0], side, security));
    } else {
        assert(sub.len() == 0);
    }
}

/// Matching conserves quantity: the amounts of the resting orders reported
/// as filled whole, plus what was traded against a partly filled resting
/// order or what of the incoming order rests, equal the incoming amount.
pub proof fn law_matching_conserves_amount(
    opp: Multiset<EngineOfferBH>,
    same: Multiset<EngineOfferBH>,
    before: Seq<Offer>,
    offer: Offer,
    opp_after: Multiset<EngineOfferBH>,
    same_after: Multiset<EngineOfferBH>,
    after: Seq<Offer>,
    r: MatchResult,
)
    requires
        matched(opp, same, before, offer, opp_after, same_after, after, r),
    ensures
        ({
            let s = sweep(opp, offer.value.amount, signed_limit(offer.value));
            offers_amount(after.subrange(before.len() as int, before.len() + s.filled.len() as int))
                + end_amount(s.end) == offer.value.amount
        }),
{
    let s = sweep(opp, offer.value.amount, signed_limit(offer.value));
    law_sweep_conserves_amount(opp, offer.value.amount, signed_limit(offer.value));
    lemma_reported_amounts(
        after,
        before.len() as int,
        s.filled,
        opposite(offer.value.side),
        offer.value.security,
    );
}

/// Matching conserves quantity over both sides of the book: the opposite
/// side loses, and the order's own side gains, together exactly the amount
/// of the incoming order.
pub proof fn law_books_conserve_amount(
    opp: Multiset<EngineOfferBH>,
    same: Multiset<EngineOfferBH>,
    before: Seq<Offer>,
    offer: Offer,
    opp_after: Multiset<EngineOfferBH>,
    same_after: Multiset<EngineOfferBH>,
    after: Seq<Offer>,
    r: MatchResult,
)
    requires
        matched(opp, same, before, offer, opp_after, same_after, after, r),
    ensures
        book_total(opp) >= book_total(opp_after),
        book_total(same_after) >= book_total(same),
        (book_total(opp) - book_total(opp_after)) + (book_total(same_after) - book_total(same))
            == offer.value.amount,
{
    let amount = offer.value.amount;
    let limit = signed_limit(offer.value);
    let s = sweep(opp, amount, limit);
    law_sweep_conserves_amount(opp, amount, limit);
    law_sweep_takes_amounts(opp, amount, limit);
    law_sweep_stops_for_a_reason(opp, amount, limit);
    lemma_total_nonneg(s.filled);
    match s.end {
        Fill::Exact => {},
        Fill::Partial { top, taken } => {
            let reduced = EngineOfferBH { amount: (top.amount - taken) as u64, ..top };
            lemma_book_total_remove(s.rest, top);
            lemma_book_total_insert(s.rest.remove(top), reduced);
        },
        Fill::Halted { remaining } => {
            lemma_book_total_insert(same, entry_of(offer, remaining));
        },
    }
}

/// Processing an order conserves quantity over both sides of the book:
/// the opposite side loses, and the order's own side gains, together
/// exactly the amount of the order.
pub proof fn law_processing_conserves_amount(
    buy: Multiset<EngineOfferBH>,
    sell: Multiset<EngineOfferBH>,
    offer: Offer,
    buy_after: Multiset<EngineOfferBH>,
    sell_after: Multiset<EngineOfferBH>,
    m: Matches,
)
    requires
        processed(buy, sell, offer, buy_after, sell_after, m),
    ensures
        offer.value.side == Side::Buy ==> book_total(sell) - book_total(sell_after) + (
        book_total(buy_after) - book_total(buy)) == offer.value.amount,
        offer.value.side == Side::Sell ==> book_total(buy) - book_total(buy_after) + (
        book_total(sell_after) - book_total(sell)) == offer.value.amount,
{
    match offer.value.side {
        Side::Buy => law_books_conserve_amount(
            sell,
            buy,
            Seq::empty(),
            offer,
            sell_after,
            buy_after,
            m.completed@,
            m.result,
        ),
        Side::Sell => law_books_conserve_amount(
            buy,
            sell,
            Seq::empty(),
            offer,
            buy_after,
            sell_after,
            m.completed@,
            m.result,
        ),
    }
}

/// Only the sell price whose two's complement is the most negative number
/// (2^63) is refused: every buy, every market order and every other sell
/// price fits.
pub proof fn law_price_fits_all_but_unnegatable(v: OfferValue)
    ensures
        v.side == Side::Buy ==> price_fits(v),
        v.price is None ==> price_fits(v),
        (v.price matches Some(p) && p != 0x8000_0000_0000_0000u64) ==> price_fits(v),
        (v.side == Side::Sell && v.price == Some(0x8000_0000_0000_0000u64)) ==> !price_fits(v)
            && wrap_i64(0x8000_0000_0000_0000u64) == i64::MIN,
{
}

/// A run skips exactly the orders that did not trade: an order that
/// traded, completely or in part, is reported (unless the counter cannot
/// count further), and one that did not is not.
pub proof fn law_run_reports_every_trade(counter: usize, count: usize, r: MatchResult)
    ensures
        r is NoMatch ==> start_action_spec(counter, count, r) is Skip,
        (r is Complete || r is Partial) && counter < usize::MAX ==> start_action_spec(
            counter,
            count,
            r,
        ) is Send,
{
}

/// Every order a match reports carries the incoming order's security; the
/// resting orders it reports are on the opposite side, under their own
/// keys, and a resting order partly filled is reported likewise.
pub proof fn law_reports_carry_security(
    opp: Multiset<EngineOfferBH>,
    same: Multiset<EngineOfferBH>,
    before: Seq<Offer>,
    offer: Offer,
    opp_after: Multiset<EngineOfferBH>,
    same_after: Multiset<EngineOfferBH>,
    after: Seq<Offer>,
    r: MatchResult,
)
    requires
        matched(opp, same, before, offer, opp_after, same_after, after, r),
    ensures
        forall|i: int|
            before.len() <= i < after.len() ==> (#[trigger] after[i]).value.security
                == offer.value.security,
        forall|i: int|
            before.len() <= i < before.len() + sweep(
                opp,
                offer.value.amount,
                signed_limit(offer.value),
            ).filled.len() ==> (#[trigger] after[i]).value.side == opposite(offer.value.side),
        r matches MatchResult::Partial { offer: o, .. } ==> o.value.security
            == offer.value.security,
{
    let s = sweep(opp, offer.value.amount, signed_limit(offer.value));
    assert forall|i: int| before.len() <= i < after.len() implies (#[trigger] after[i]).value.security
        == offer.value.security by {
        if i < before.len() + s.filled.len() {
            let k = i - before.len();
            assert(offer_of_entry(after[before.len() + k], s.filled[k], opposite(offer.value.side), offer.value.security));
        }
    }
    assert forall|i: int|
        before.len() <= i < before.len() + s.filled.len() implies (#[trigger] after[i]).value.side
        == opposite(offer.value.side) by {
        let k = i - before.len();
        assert(offer_of_entry(after[before.len() + k], s.filled[k], opposite(offer.value.side), offer.value.security));
    }
}

} // verus!
