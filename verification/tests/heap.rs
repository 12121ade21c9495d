use matching_engine::engine::engine_bheap::{BinaryHeapEngine, EngineOfferBH};
use matching_engine::engine::{EngineDataStruct, MatchResult};
use matching_engine::offers::{Offer, OfferKey, OfferValue, Security, Side};

fn e(price: Option<i64>, key: u64, amount: u64) -> EngineOfferBH {
    EngineOfferBH { price, key, amount }
}

#[test]
fn heap_serves_in_priority_order() {
    let mut h = BinaryHeapEngine::with_capacity(2);
    for x in [e(Some(5), 3, 1), e(Some(9), 4, 1), e(None, 7, 1), e(Some(9), 2, 1), e(Some(-3), 1, 1), e(Some(9), 2, 5)] {
        h.push(x);
    }
    assert_eq!(h.len(), 6);
    assert_eq!(h.peek(), Some(e(Some(9), 4, 1)));
    let mut out = Vec::new();
    while let Some(x) = h.pop() {
        out.push(x);
    }
    assert_eq!(
        out,
        vec![e(Some(9), 4, 1), e(Some(9), 2, 5), e(Some(9), 2, 1), e(Some(5), 3, 1), e(Some(-3), 1, 1), e(None, 7, 1)]
    );
    assert_eq!(h.peek(), None);
}

#[test]
fn reduce_top_reorders() {
    let mut h = BinaryHeapEngine::with_capacity(0);
    h.push(e(Some(1), 1, 10));
    h.push(e(Some(1), 1, 4));
    h.reduce_top(7);
    assert_eq!(h.pop(), Some(e(Some(1), 1, 4)));
    assert_eq!(h.pop(), Some(e(Some(1), 1, 3)));
}

#[test]
fn delete_key_removes_every_order_of_the_key() {
    let mut h = <BinaryHeapEngine as EngineDataStruct>::with_capacity(4);
    h.push(e(Some(1), 5, 1));
    h.push(e(Some(2), 6, 1));
    h.push(e(None, 5, 3));
    let h = h.delete_key(&OfferKey::from(5));
    assert_eq!(h.len(), 1);
    assert_eq!(h.peek(), Some(e(Some(2), 6, 1)));
}

#[test]
fn match_offer_on_the_heap() {
    let mut sells = BinaryHeapEngine::with_capacity(4);
    let mut buys = BinaryHeapEngine::with_capacity(4);
    sells.push(e(None, 1, 3));
    let mut matches: Vec<Offer> = Vec::new();
    let offer = Offer {
        key: OfferKey::from(2),
        value: OfferValue { security: Security::USD, side: Side::Buy, amount: 5, price: Some(10) },
    };
    let r = sells.match_offer(&mut matches, offer, &mut buys);
    match r {
        MatchResult::Partial { offer, to_substract } => {
            assert_eq!(to_substract, 3);
            assert_eq!(offer.key.to_u64(), 2);
        }
        other => panic!("unexpected {:?}", other),
    }
    assert_eq!(matches.len(), 1);
    assert_eq!(matches[0].key.to_u64(), 1);
    assert_eq!(matches[0].value.price, None);
    assert_eq!(matches[0].value.side, Side::Sell);
    assert!(matches!(matches[0].value.security, Security::USD));
    assert_eq!(buys.peek(), Some(e(Some(10), 2, 2)));
    assert_eq!(sells.len(), 0);
}

#[test]
fn priced_buy_stops_at_priced_sell() {
    let mut sells = BinaryHeapEngine::with_capacity(4);
    let mut buys = BinaryHeapEngine::with_capacity(4);
    sells.push(e(Some(-10), 1, 3));
    let mut matches: Vec<Offer> = Vec::new();
    let offer = Offer {
        key: OfferKey::from(2),
        value: OfferValue { security: Security::BTC, side: Side::Buy, amount: 5, price: Some(10) },
    };
    let r = sells.match_offer(&mut matches, offer, &mut buys);
    assert!(matches!(r, MatchResult::NoMatch));
    assert!(matches.is_empty());
    assert_eq!(buys.peek(), Some(e(Some(10), 2, 5)));
    assert_eq!(sells.len(), 1);
}

fn drain_total(h: &mut BinaryHeapEngine) -> u64 {
    let mut t = 0;
    while let Some(x) = h.pop() {
        t += x.amount;
    }
    t
}

#[test]
fn books_conserve_amount() {
    let mut sells = BinaryHeapEngine::with_capacity(4);
    let mut buys = BinaryHeapEngine::with_capacity(4);
    sells.push(e(None, 1, 3));
    sells.push(e(Some(-7), 2, 10));
    buys.push(e(Some(1), 9, 4));
    let (sells_before, buys_before) = (13u64, 4u64);
    let mut matches: Vec<Offer> = Vec::new();
    let offer = Offer {
        key: OfferKey::from(5),
        value: OfferValue { security: Security::BTC, side: Side::Sell, amount: 6, price: None },
    };
    // A market sell of 6 against the buys: takes the 4 units, rests 2.
    let r = buys.match_offer(&mut matches, offer, &mut sells);
    assert!(matches!(r, MatchResult::Partial { to_substract: 4, .. }));
    let buys_after = drain_total(&mut buys);
    let sells_after = drain_total(&mut sells);
    assert_eq!((buys_before - buys_after) + (sells_after - sells_before), 6);
}
