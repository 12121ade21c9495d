use matching_engine::engine_btree::{
    match_offer, Engine, EngineOffer, MatchResult, Offers, ScaledOffer,
};

fn scaled(key: u64, buy: bool, amount: u64, price: Option<i64>) -> ScaledOffer {
    ScaledOffer { key: key.to_be_bytes(), buy, price, amount }
}

fn entries(o: &Offers) -> Vec<(Option<i64>, u64, u64)> {
    o.as_slice().iter().map(|e| (e.price, e.key, e.amount)).collect()
}

#[test]
fn range_limit_and_from_offer_data() {
    let l = EngineOffer::range_limit(70, true);
    assert_eq!((l.price, l.key, l.amount), (Some(70), u64::MAX, u64::MAX));
    let l = EngineOffer::range_limit(70, false);
    assert_eq!(l.price, Some(-70));
    let e = EngineOffer::from_offer_data(&scaled(9, false, 100, Some(5)), 40);
    assert_eq!((e.price, e.key, e.amount), (Some(5), 9, 40));
}

#[test]
fn match_offer_over_a_range() {
    let range = [
        EngineOffer { price: None, key: 1, amount: 2 },
        EngineOffer { price: Some(3), key: 2, amount: 3 },
        EngineOffer { price: Some(4), key: 3, amount: 10 },
    ];
    let mut m = Vec::new();
    let r = match_offer(&mut m, &scaled(5, true, 5, None), &range);
    assert!(matches!(r, MatchResult::Complete));
    assert_eq!(m.len(), 2);
    let mut m = Vec::new();
    let r = match_offer(&mut m, &scaled(5, true, 7, None), &range);
    assert!(matches!(r, MatchResult::Partial(EngineOffer { key: 3, amount: 10, .. }, 2)));
    assert_eq!(m.len(), 2);
    let mut m = Vec::new();
    let r = match_offer(&mut m, &scaled(5, true, 7, None), &range[..1]);
    assert!(matches!(r, MatchResult::PartialSame(5)));
    assert_eq!(m.len(), 1);
}

#[test]
fn btree_engine_matches_in_increasing_order() {
    let mut engine = Engine::new();
    engine.process_offer(scaled(1, false, 3, Some(20)));
    engine.process_offer(scaled(2, false, 3, Some(10)));
    engine.process_offer(scaled(3, false, 3, None));
    assert_eq!(
        entries(engine.sell_offers()),
        vec![(None, 3, 3), (Some(10), 2, 3), (Some(20), 1, 3)]
    );
    // A buy at 15 matches the market sell and the sell at 10, and rests 1.
    engine.process_offer(scaled(4, true, 7, Some(15)));
    assert_eq!(entries(engine.sell_offers()), vec![(Some(20), 1, 3)]);
    assert_eq!(entries(engine.buy_offers()), vec![(Some(15), 4, 1)]);
}

#[test]
fn btree_engine_partial_keeps_the_order_it_reduces() {
    let mut engine = Engine::new();
    engine.process_offer(scaled(1, false, 10, Some(5)));
    engine.process_offer(scaled(2, true, 4, None));
    assert_eq!(entries(engine.sell_offers()), vec![(Some(5), 1, 6), (Some(5), 1, 10)]);
    assert!(engine.buy_offers().as_slice().is_empty());
}

#[test]
fn btree_engine_sell_limit_is_negated() {
    let mut engine = Engine::new();
    engine.process_offer(scaled(1, true, 2, Some(8)));
    // The sell at 5 looks for buys up to -5: the buy at 8 lies beyond it.
    engine.process_offer(scaled(2, false, 2, Some(5)));
    assert_eq!(entries(engine.buy_offers()), vec![(Some(8), 1, 2)]);
    assert_eq!(entries(engine.sell_offers()), vec![(Some(5), 2, 2)]);
}
