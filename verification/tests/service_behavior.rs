use txpool::config::Config;
use txpool::reactor::ImportReactor;
use txpool::pool::PendingPool;
use txpool::service::{ImportError, Service, ServiceError, StartError, StopError};
use txpool::types::{
    CoinRef, CoinState, DropReason, GossipEnvelope, ImportFault, InsertResult, SealedBlock,
    StatusEvent, StatusMessage, Transaction, Verdict,
};

fn cfg(count: usize, weight: u64) -> Config {
    Config {
        max_pool_count: count,
        max_pool_weight: weight,
        min_gas_price: 1,
        max_tx_size: 100,
        status_channel_capacity: 8,
    }
}

fn coin(t: u64, i: u16) -> CoinRef {
    CoinRef { tx_id: t, output_index: i }
}

fn tx(id: u64, inputs: Vec<CoinRef>, gas_price: u64, size: u64) -> Transaction {
    Transaction { id, inputs, outputs: vec![], gas_price, size }
}

fn unspent(n: usize) -> Vec<CoinState> {
    vec![CoinState::Unspent { owner: 1, amount: 100 }; n]
}

fn running_service() -> Service {
    let mut s = Service::new(cfg(10, 1000));
    assert_eq!(s.start(true), Ok(()));
    s
}

fn envelope(t: Transaction) -> GossipEnvelope {
    GossipEnvelope { tx: t, peer_id: 7, message_id: 42 }
}

#[test]
fn admission_emits_one_submitted_and_one_broadcast() {
    let mut s = running_service();
    let sub = s.subscribe_status();
    let r = s.submit(tx(1, vec![coin(9, 0)], 10, 10), &unspent(1));
    assert_eq!(r, Ok(InsertResult::Admitted));
    let events = s.drain_status(sub);
    assert_eq!(events, vec![StatusMessage { tx_id: 1, event: StatusEvent::Submitted }]);
    assert_eq!(s.take_outbound(), vec![1]);
    assert_eq!(s.take_outbound(), Vec::<u64>::new());
}

#[test]
fn gossip_duplicate_is_ignored_without_events_or_rebroadcast() {
    let mut s = running_service();
    let r = s.submit(tx(1, vec![coin(9, 0)], 10, 10), &unspent(1));
    assert_eq!(r, Ok(InsertResult::Admitted));
    let _ = s.take_outbound();
    let sub = s.subscribe_status();
    let v = s.submit_gossip(&envelope(tx(1, vec![coin(9, 0)], 10, 10)), &unspent(1));
    assert_eq!(v, Ok(Verdict::Ignore));
    assert!(s.drain_status(sub).is_empty());
    assert!(s.take_outbound().is_empty());
    assert_eq!(s.pending_count(), 1);
}

#[test]
fn gossip_admission_reports_accept_without_broadcast_queue() {
    let mut s = running_service();
    let v = s.submit_gossip(&envelope(tx(1, vec![coin(9, 0)], 10, 10)), &unspent(1));
    assert_eq!(v, Ok(Verdict::Accept));
    assert!(s.take_outbound().is_empty());
    assert!(s.contains(1));
}

#[test]
fn gossip_invalid_transaction_reports_reject() {
    let mut s = running_service();
    let v = s.submit_gossip(&envelope(tx(1, vec![coin(9, 0)], 0, 10)), &unspent(1));
    assert_eq!(v, Ok(Verdict::Reject));
    assert!(!s.contains(1));
}

#[test]
fn duplicate_api_submission_keeps_one_entry() {
    let mut s = running_service();
    assert_eq!(s.submit(tx(1, vec![coin(9, 0)], 10, 10), &unspent(1)), Ok(InsertResult::Admitted));
    assert_eq!(
        s.submit(tx(1, vec![coin(9, 0)], 10, 10), &unspent(1)),
        Ok(InsertResult::RejectedDuplicate)
    );
    assert_eq!(s.pending_count(), 1);
}

#[test]
fn validation_rejection_is_published_as_rejected_event() {
    let mut s = running_service();
    let sub = s.subscribe_status();
    let r = s.submit(tx(1, vec![coin(9, 0)], 10, 101), &unspent(1));
    assert_eq!(
        r,
        Ok(InsertResult::RejectedValidation(txpool::types::ValidationError::Oversized))
    );
    let events = s.drain_status(sub);
    assert_eq!(
        events,
        vec![StatusMessage {
            tx_id: 1,
            event: StatusEvent::Rejected(txpool::types::ValidationError::Oversized),
        }]
    );
    assert!(s.take_outbound().is_empty());
}

#[test]
fn conflict_terminal_state_is_order_independent() {
    // a (priority 10) and b (priority 5) both spend coin (9, 0)
    let a = || tx(1, vec![coin(9, 0)], 10, 10);
    let b = || tx(2, vec![coin(9, 0)], 5, 10);

    let mut s1 = running_service();
    assert_eq!(s1.submit(a(), &unspent(1)), Ok(InsertResult::Admitted));
    assert_eq!(s1.submit(b(), &unspent(1)), Ok(InsertResult::RejectedConflict(2)));
    assert!(s1.contains(1));
    assert!(!s1.contains(2));

    let mut s2 = running_service();
    let sub = s2.subscribe_status();
    assert_eq!(s2.submit(b(), &unspent(1)), Ok(InsertResult::Admitted));
    assert_eq!(s2.submit(a(), &unspent(1)), Ok(InsertResult::Admitted));
    assert!(s2.contains(1));
    assert!(!s2.contains(2));
    let events = s2.drain_status(sub);
    assert!(events.contains(&StatusMessage {
        tx_id: 2,
        event: StatusEvent::SqueezedOut(DropReason::Conflict),
    }));
}

#[test]
fn block_import_prunes_included_entry_once() {
    let mut s = running_service();
    s.submit(tx(1, vec![coin(9, 0)], 10, 10), &unspent(1)).unwrap();
    s.submit(tx(2, vec![coin(9, 1)], 10, 10), &unspent(1)).unwrap();
    s.submit(tx(3, vec![coin(9, 2)], 10, 10), &unspent(1)).unwrap();
    let sub = s.subscribe_status();
    let block = SealedBlock { height: 1, txs: vec![tx(1, vec![coin(9, 0)], 10, 10)] };
    assert_eq!(s.on_block(&block), Ok(()));
    assert!(!s.contains(1));
    assert!(s.contains(2));
    assert!(s.contains(3));
    let events = s.drain_status(sub);
    assert_eq!(events, vec![StatusMessage { tx_id: 1, event: StatusEvent::Included(1) }]);
}

#[test]
fn block_with_foreign_transaction_squeezes_conflicting_entry() {
    // t spends coin k and is pooled; u lost the conflict earlier; the block
    // includes v, never pooled, which also spends k.
    let mut s = running_service();
    let k = coin(9, 0);
    assert_eq!(s.submit(tx(1, vec![k], 10, 10), &unspent(1)), Ok(InsertResult::Admitted));
    assert_eq!(
        s.submit(tx(2, vec![k], 5, 10), &unspent(1)),
        Ok(InsertResult::RejectedConflict(2))
    );
    let sub = s.subscribe_status();
    let block = SealedBlock { height: 1, txs: vec![tx(3, vec![k], 50, 10)] };
    assert_eq!(s.on_block(&block), Ok(()));
    assert!(!s.contains(1));
    let events = s.drain_status(sub);
    assert_eq!(
        events,
        vec![StatusMessage {
            tx_id: 1,
            event: StatusEvent::SqueezedOut(DropReason::BlockConflict),
        }]
    );
}

#[test]
fn height_regression_is_fatal() {
    let mut s = running_service();
    s.submit(tx(1, vec![coin(9, 0)], 10, 10), &unspent(1)).unwrap();
    let b1 = SealedBlock { height: 5, txs: vec![] };
    assert_eq!(s.on_block(&b1), Ok(()));
    let b2 = SealedBlock { height: 5, txs: vec![] };
    assert_eq!(s.on_block(&b2), Err(ImportError::HeightRegression));
    // the pool was untouched, but the service no longer admits
    assert!(s.contains(1));
    assert_eq!(
        s.submit(tx(2, vec![coin(9, 1)], 10, 10), &unspent(1)),
        Err(ServiceError::NotRunning)
    );
}

#[test]
fn import_stream_end_stops_the_service() {
    let mut s = running_service();
    s.on_import_stream_closed();
    assert_eq!(
        s.submit(tx(1, vec![coin(9, 0)], 10, 10), &unspent(1)),
        Err(ServiceError::NotRunning)
    );
    assert_eq!(
        s.submit_gossip(&envelope(tx(1, vec![coin(9, 0)], 10, 10)), &unspent(1)),
        Err(ServiceError::NotRunning)
    );
}

#[test]
fn lifecycle_start_and_stop_surfaces() {
    let mut s = Service::new(cfg(10, 1000));
    assert_eq!(s.stop(true), Err(StopError::NotRunning));
    assert_eq!(s.start(false), Err(StartError::CollaboratorUnavailable));
    assert_eq!(s.start(true), Ok(()));
    assert_eq!(s.start(true), Err(StartError::AlreadyRunning));
    assert_eq!(s.stop(false), Err(StopError::ShutdownTimeout));
    assert_eq!(s.stop(true), Err(StopError::NotRunning));
    assert_eq!(s.start(true), Ok(()));
    assert_eq!(s.stop(true), Ok(()));
}

#[test]
fn subscriber_sees_only_later_events_and_bounded_buffer() {
    let mut s = Service::new(Config {
        max_pool_count: 10,
        max_pool_weight: 1000,
        min_gas_price: 1,
        max_tx_size: 100,
        status_channel_capacity: 2,
    });
    assert_eq!(s.start(true), Ok(()));
    s.submit(tx(1, vec![coin(9, 0)], 10, 10), &unspent(1)).unwrap();
    let sub = s.subscribe_status();
    // the event before subscription is not replayed
    assert!(s.drain_status(sub).is_empty());
    s.submit(tx(2, vec![coin(9, 1)], 10, 10), &unspent(1)).unwrap();
    s.submit(tx(3, vec![coin(9, 2)], 10, 10), &unspent(1)).unwrap();
    s.submit(tx(4, vec![coin(9, 3)], 10, 10), &unspent(1)).unwrap();
    // capacity 2: the oldest buffered event was dropped, not the producer blocked
    let events = s.drain_status(sub);
    assert_eq!(
        events,
        vec![
            StatusMessage { tx_id: 3, event: StatusEvent::Submitted },
            StatusMessage { tx_id: 4, event: StatusEvent::Submitted },
        ]
    );
}

#[test]
fn query_returns_priority_ordered_snapshot() {
    let mut s = running_service();
    s.submit(tx(1, vec![coin(9, 0)], 3, 10), &unspent(1)).unwrap();
    s.submit(tx(2, vec![coin(9, 1)], 8, 10), &unspent(1)).unwrap();
    let snapshot = s.query(1000);
    let ids: Vec<u64> = snapshot.iter().map(|t| t.id).collect();
    assert_eq!(ids, vec![2, 1]);
    // read-only: the pool is unchanged
    assert_eq!(s.pending_count(), 2);
}

#[test]
fn reactor_refuses_height_regression_directly() {
    let mut reactor = ImportReactor::new();
    let mut pool = PendingPool::new(cfg(10, 1000));
    let b1 = SealedBlock { height: 3, txs: vec![] };
    assert!(reactor.process_block(&mut pool, &b1).is_ok());
    let b2 = SealedBlock { height: 2, txs: vec![] };
    assert_eq!(
        reactor.process_block(&mut pool, &b2),
        Err(ImportFault::HeightRegression)
    );
}

#[test]
fn gossip_conflict_loser_is_rejected_without_mutation() {
    let mut s = running_service();
    assert_eq!(s.submit(tx(1, vec![coin(9, 0)], 10, 10), &unspent(1)), Ok(InsertResult::Admitted));
    let v = s.submit_gossip(&envelope(tx(2, vec![coin(9, 0)], 5, 10)), &unspent(1));
    assert_eq!(v, Ok(Verdict::Reject));
    assert!(s.contains(1));
    assert!(!s.contains(2));
}

#[test]
fn zero_capacity_status_channel_keeps_no_events() {
    let mut s = Service::new(Config {
        max_pool_count: 10,
        max_pool_weight: 1000,
        min_gas_price: 1,
        max_tx_size: 100,
        status_channel_capacity: 0,
    });
    assert_eq!(s.start(true), Ok(()));
    let sub = s.subscribe_status();
    s.submit(tx(1, vec![coin(9, 0)], 10, 10), &unspent(1)).unwrap();
    assert!(s.drain_status(sub).is_empty());
}
