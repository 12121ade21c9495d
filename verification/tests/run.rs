use matching_engine::engine::engine_bheap::BinaryHeapEngine;
use matching_engine::engine::{
    end_marker, next_start_action, Engine, MatchResult, Matches, Received, StartAction,
};
use matching_engine::offers::{Offer, OfferKey, OfferValue, Security, Side};

fn offer(key: u64, side: Side, amount: u64, price: Option<u64>) -> Offer {
    Offer { key: OfferKey::from(key), value: OfferValue { side, security: Security::BTC, amount, price } }
}

#[test]
fn steps_over_the_channels() {
    let (so, ro) = crossbeam_channel::unbounded::<Offer>();
    let (sm, rm) = crossbeam_channel::unbounded::<Matches>();
    let mut engine = Engine::<BinaryHeapEngine>::new(ro, sm);
    so.send(offer(1, Side::Sell, 3, None)).unwrap();
    so.send(offer(2, Side::Buy, 3, None)).unwrap();
    drop(so);
    let r = engine.receiver().recv().ok();
    assert!(matches!(engine.handle_received(r, 0, 1), Received::Processed(_, StartAction::Skip)));
    let r = engine.receiver().recv().ok();
    match engine.handle_received(r, 0, 1) {
        Received::Processed(m, StartAction::Send { counter, report, finish }) => {
            assert_eq!((counter, report, finish), (1, false, true));
            engine.sender().send(m).unwrap();
        }
        other => panic!("unexpected {:?}", other),
    }
    let m = rm.recv().unwrap();
    assert!(matches!(m.result, MatchResult::Complete));
    assert_eq!(m.completed.len(), 2);
    engine.sender().send(end_marker()).unwrap();
    let end = rm.recv().unwrap();
    assert!(matches!(end.result, MatchResult::NoMatch));
    assert!(end.completed.is_empty());
    let r = engine.receiver().recv().ok();
    assert!(matches!(engine.handle_received(r, 1, 1), Received::Disconnected));
}

#[test]
fn end_marker_is_empty_and_unmatched() {
    let m = end_marker();
    assert!(m.completed.is_empty());
    assert!(matches!(m.result, MatchResult::NoMatch));
}

#[test]
fn start_actions() {
    assert!(matches!(next_start_action(3, 5, &MatchResult::NoMatch), StartAction::Skip));
    assert!(matches!(
        next_start_action(9, 20, &MatchResult::Complete),
        StartAction::Send { counter: 10, report: true, finish: false }
    ));
    assert!(matches!(
        next_start_action(4, 5, &MatchResult::Complete),
        StartAction::Send { counter: 5, report: false, finish: true }
    ));
    assert!(matches!(next_start_action(usize::MAX, 5, &MatchResult::Complete), StartAction::Overflow));
}

#[test]
fn handle_received_decides_per_order() {
    let (_so, ro) = crossbeam_channel::unbounded::<Offer>();
    let (sm, _rm) = crossbeam_channel::unbounded::<Matches>();
    let mut engine = Engine::<BinaryHeapEngine>::new(ro, sm);
    assert!(matches!(engine.handle_received(None, 0, 2), Received::Disconnected));
    assert!(matches!(
        engine.handle_received(Some(offer(1, Side::Sell, 3, Some(1u64 << 63))), 0, 2),
        Received::Rejected
    ));
    assert!(matches!(
        engine.handle_received(Some(offer(2, Side::Sell, 3, None)), 0, 2),
        Received::Processed(Matches { result: MatchResult::NoMatch, .. }, StartAction::Skip)
    ));
    match engine.handle_received(Some(offer(3, Side::Buy, 3, None)), 1, 2) {
        Received::Processed(m, StartAction::Send { counter, report, finish }) => {
            assert!(matches!(m.result, MatchResult::Complete));
            assert_eq!(m.completed.len(), 2);
            assert_eq!((counter, report, finish), (2, false, true));
        }
        other => panic!("unexpected {:?}", other),
    }
}

#[test]
fn a_run_sends_at_most_count_reports() {
    let results = [
        MatchResult::Complete,
        MatchResult::NoMatch,
        MatchResult::Complete,
        MatchResult::Complete,
        MatchResult::Complete,
    ];
    let (count, mut counter, mut sent) = (3usize, 0usize, 0usize);
    for r in results.iter() {
        match next_start_action(counter, count, r) {
            StartAction::Skip => continue,
            StartAction::Overflow => panic!("overflow"),
            StartAction::Send { counter: c, finish, .. } => {
                sent += 1;
                counter = c;
                if finish {
                    break;
                }
            }
        }
    }
    assert_eq!(sent, 3);
    assert_eq!(counter, count);
}
