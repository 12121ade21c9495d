use matching_engine::engine::engine_bheap::BinaryHeapEngine;
use matching_engine::engine::{Engine, MatchResult, Matches};
use matching_engine::offers::{Offer, OfferValue, Security, Side};

fn offer(key: u64, side: Side, amount: u64, price: Option<u64>) -> Offer {
    Offer {
        key: u64::to_be_bytes(key).into(),
        value: OfferValue { side, security: Security::BTC, amount, price },
    }
}

#[test]
fn engine_test() {
    let (_sender_offer, receiver_offer) = crossbeam_channel::unbounded::<Offer>();
    let (sender_matches, _receiver_matches) = crossbeam_channel::unbounded::<Matches>();
    let mut engine = Engine::<BinaryHeapEngine>::new(receiver_offer, sender_matches);
    let offer = Offer {
        key: u64::to_be_bytes(0).into(),
        value: OfferValue {
            side: Side::Buy,
            security: Security::BTC,
            amount: 10,
            price: None,
        },
    };
    engine.process_offer(offer);
    let offer = Offer {
        key: u64::to_be_bytes(1).into(),
        value: OfferValue {
            side: Side::Buy,
            security: Security::BTC,
            amount: 5,
            price: Some(32),
        },
    };
    let matches = engine.process_offer(offer);
    println!("{:?}", matches);

    let offer = Offer {
        key: u64::to_be_bytes(2).into(),
        value: OfferValue {
            side: Side::Sell,
            security: Security::BTC,
            amount: 8,
            price: None,
        },
    };
    let matches = engine.process_offer(offer);
    println!("{:?}", matches);

    let offer = Offer {
        key: u64::to_be_bytes(3).into(),
        value: OfferValue {
            side: Side::Sell,
            security: Security::BTC,
            amount: 6,
            price: Some(33),
        },
    };
    let matches = engine.process_offer(offer);
    println!("{:?}", matches);
}

fn new_engine() -> Engine<BinaryHeapEngine> {
    let (_s, r) = crossbeam_channel::unbounded::<Offer>();
    let (s, _r) = crossbeam_channel::unbounded::<Matches>();
    Engine::<BinaryHeapEngine>::new(r, s)
}

#[test]
fn engine_test_outcomes() {
    let mut engine = new_engine();
    let m = engine.process_offer(offer(0, Side::Buy, 10, None));
    assert!(matches!(m.result, MatchResult::NoMatch));
    assert!(m.completed.is_empty());
    let m = engine.process_offer(offer(1, Side::Buy, 5, Some(32)));
    assert!(matches!(m.result, MatchResult::NoMatch));

    // A market sell of 8 first takes the buy at 32 whole (a priced order
    // is served before a market order), then 3 of the market buy.
    let m = engine.process_offer(offer(2, Side::Sell, 8, None));
    assert_eq!(m.completed.len(), 1);
    assert_eq!(m.completed[0].key.to_u64(), 1);
    assert_eq!(m.completed[0].value.amount, 5);
    assert_eq!(m.completed[0].value.price, Some(32));
    assert_eq!(m.completed[0].value.side, Side::Buy);
    match m.result {
        MatchResult::Partial { offer, to_substract } => {
            assert_eq!(to_substract, 3);
            assert_eq!(offer.key.to_u64(), 0);
            assert_eq!(offer.value.side, Side::Buy);
            assert_eq!(offer.value.amount, 10);
            assert_eq!(offer.value.price, None);
        }
        other => panic!("unexpected {:?}", other),
    }

    // The sell at 33 takes 6 of the 7 left of the market buy, which never
    // stops a priced order.
    let m = engine.process_offer(offer(3, Side::Sell, 6, Some(33)));
    assert!(m.completed.is_empty());
    match m.result {
        MatchResult::Partial { offer, to_substract } => {
            assert_eq!(to_substract, 6);
            assert_eq!(offer.key.to_u64(), 0);
            assert_eq!(offer.value.amount, 7);
            assert_eq!(offer.value.price, None);
        }
        other => panic!("unexpected {:?}", other),
    }
}

#[test]
fn market_order_filled_exactly_is_reported_last() {
    let mut engine = new_engine();
    engine.process_offer(offer(7, Side::Sell, 3, Some(100)));
    let m = engine.process_offer(offer(8, Side::Buy, 3, None));
    assert!(matches!(m.result, MatchResult::Complete));
    assert_eq!(m.completed.len(), 2);
    assert_eq!(m.completed[0].key.to_u64(), 7);
    assert_eq!(m.completed[0].value.side, Side::Sell);
    assert_eq!(m.completed[0].value.price, Some(100));
    assert_eq!(m.completed[1].key.to_u64(), 8);
    assert_eq!(m.completed[1].value.side, Side::Buy);
}

#[test]
fn priced_order_filled_exactly_reports_only_resting_orders() {
    let mut engine = new_engine();
    engine.process_offer(offer(1, Side::Buy, 4, Some(50)));
    let m = engine.process_offer(offer(2, Side::Sell, 4, Some(10)));
    assert!(matches!(m.result, MatchResult::Complete));
    assert_eq!(m.completed.len(), 1);
    assert_eq!(m.completed[0].key.to_u64(), 1);
    assert_eq!(m.completed[0].value.price, Some(50));
}

#[test]
fn leftover_rests_and_result_is_partial_of_the_incoming_order() {
    let mut engine = new_engine();
    engine.process_offer(offer(1, Side::Sell, 3, None));
    // Buy 10 at market takes the 3 units and 7 rest on the buy side.
    let m = engine.process_offer(offer(2, Side::Buy, 10, None));
    assert_eq!(m.completed.len(), 1);
    match m.result {
        MatchResult::Partial { offer, to_substract } => {
            assert_eq!(to_substract, 3);
            assert_eq!(offer.key.to_u64(), 2);
            assert_eq!(offer.value.amount, 10);
        }
        other => panic!("unexpected {:?}", other),
    }
    // The 7 resting units fill a market sell of 7 exactly.
    let m = engine.process_offer(offer(3, Side::Sell, 7, None));
    assert!(matches!(m.result, MatchResult::Complete));
    assert_eq!(m.completed[0].key.to_u64(), 2);
    assert_eq!(m.completed[0].value.amount, 7);
}

#[test]
fn priority_price_then_newer_key_then_market() {
    let mut engine = new_engine();
    engine.process_offer(offer(1, Side::Sell, 1, Some(30)));
    engine.process_offer(offer(2, Side::Sell, 1, Some(20)));
    engine.process_offer(offer(3, Side::Sell, 1, Some(20)));
    engine.process_offer(offer(4, Side::Sell, 1, None));
    let m = engine.process_offer(offer(5, Side::Buy, 4, None));
    let keys: Vec<u64> = m.completed.iter().map(|o| o.key.to_u64()).collect();
    assert_eq!(keys, vec![3, 2, 1, 4, 5]);
    assert!(matches!(m.result, MatchResult::Complete));
}

#[test]
fn limit_stops_at_lower_signed_price() {
    let mut engine = new_engine();
    // Sell side keeps prices negated: 30 rests as -30.
    engine.process_offer(offer(1, Side::Sell, 5, Some(30)));
    // A buy at 20 has signed limit 20 > -30, so it stops at once and rests.
    let m = engine.process_offer(offer(2, Side::Buy, 5, Some(20)));
    assert!(matches!(m.result, MatchResult::NoMatch));
    assert!(m.completed.is_empty());
}

#[test]
fn large_prices_wrap_and_read_back() {
    let mut engine = new_engine();
    let big = u64::MAX - 1;
    engine.process_offer(offer(1, Side::Buy, 2, Some(big)));
    let m = engine.process_offer(offer(2, Side::Sell, 2, None));
    assert!(matches!(m.result, MatchResult::Complete));
    assert_eq!(m.completed[0].value.price, Some(big));
}
