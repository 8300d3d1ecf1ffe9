use txpool::config::Config;
use txpool::pool::PendingPool;
use txpool::types::{
    CoinRef, CoinState, DropReason, InsertResult, StatusEvent, StatusMessage, Transaction,
};
use txpool::validator::validate;

fn cfg(count: usize, weight: u64) -> Config {
    Config {
        max_pool_count: count,
        max_pool_weight: weight,
        min_gas_price: 1,
        max_tx_size: 100,
        status_channel_capacity: 8,
    }
}

fn coin(t: u64, i: u16) -> CoinRef {
    CoinRef { tx_id: t, output_index: i }
}

fn tx(id: u64, inputs: Vec<CoinRef>, gas_price: u64, size: u64) -> Transaction {
    Transaction { id, inputs, outputs: vec![], gas_price, size }
}

fn unspent(n: usize) -> Vec<CoinState> {
    vec![CoinState::Unspent { owner: 1, amount: 100 }; n]
}

#[test]
fn validator_rejects_missing_inputs() {
    let t = tx(1, vec![], 10, 10);
    let r = validate(&t, &vec![], &cfg(10, 1000));
    assert_eq!(r, Some(txpool::types::ValidationError::Malformed));
}

#[test]
fn validator_rejects_duplicate_inputs() {
    let t = tx(1, vec![coin(9, 0), coin(9, 0)], 10, 10);
    let r = validate(&t, &unspent(2), &cfg(10, 1000));
    assert_eq!(r, Some(txpool::types::ValidationError::Malformed));
}

#[test]
fn validator_rejects_oversized() {
    let t = tx(1, vec![coin(9, 0)], 10, 101);
    let r = validate(&t, &unspent(1), &cfg(10, 1000));
    assert_eq!(r, Some(txpool::types::ValidationError::Oversized));
}

#[test]
fn validator_rejects_underpriced() {
    let t = tx(1, vec![coin(9, 0)], 0, 10);
    let r = validate(&t, &unspent(1), &cfg(10, 1000));
    assert_eq!(r, Some(txpool::types::ValidationError::Underpriced));
}

#[test]
fn validator_rejects_unknown_input() {
    let t = tx(1, vec![coin(9, 0), coin(9, 1)], 10, 10);
    let states = vec![CoinState::Unspent { owner: 1, amount: 5 }, CoinState::Unknown];
    let r = validate(&t, &states, &cfg(10, 1000));
    assert_eq!(r, Some(txpool::types::ValidationError::UnknownInput));
}

#[test]
fn validator_rejects_spent_input() {
    let t = tx(1, vec![coin(9, 0)], 10, 10);
    let r = validate(&t, &vec![CoinState::Spent], &cfg(10, 1000));
    assert_eq!(r, Some(txpool::types::ValidationError::SpentInput));
}

#[test]
fn validator_accepts_valid_transaction() {
    let t = tx(1, vec![coin(9, 0)], 10, 10);
    let r = validate(&t, &unspent(1), &cfg(10, 1000));
    assert_eq!(r, None);
}

#[test]
fn insert_admits_valid_transaction() {
    let mut p = PendingPool::new(cfg(10, 1000));
    let (r, events) = p.insert(tx(1, vec![coin(9, 0)], 10, 10), &unspent(1));
    assert_eq!(r, InsertResult::Admitted);
    assert_eq!(events, vec![StatusMessage { tx_id: 1, event: StatusEvent::Submitted }]);
    assert!(p.contains(1));
    assert_eq!(p.len(), 1);
}

#[test]
fn insert_refuses_duplicate_id_without_effect() {
    let mut p = PendingPool::new(cfg(10, 1000));
    let (r1, _) = p.insert(tx(1, vec![coin(9, 0)], 10, 10), &unspent(1));
    assert_eq!(r1, InsertResult::Admitted);
    let (r2, events) = p.insert(tx(1, vec![coin(8, 0)], 99, 10), &unspent(1));
    assert_eq!(r2, InsertResult::RejectedDuplicate);
    assert!(events.is_empty());
    assert_eq!(p.len(), 1);
}

#[test]
fn conflict_lower_priority_incoming_is_refused() {
    let mut p = PendingPool::new(cfg(10, 1000));
    let (r1, _) = p.insert(tx(1, vec![coin(9, 0)], 10, 10), &unspent(1));
    assert_eq!(r1, InsertResult::Admitted);
    let (r2, events) = p.insert(tx(2, vec![coin(9, 0)], 5, 10), &unspent(1));
    assert_eq!(r2, InsertResult::RejectedConflict(2));
    assert!(events.is_empty());
    assert!(p.contains(1));
    assert!(!p.contains(2));
}

#[test]
fn conflict_tie_keeps_existing_entry() {
    let mut p = PendingPool::new(cfg(10, 1000));
    let (r1, _) = p.insert(tx(1, vec![coin(9, 0)], 10, 10), &unspent(1));
    assert_eq!(r1, InsertResult::Admitted);
    let (r2, _) = p.insert(tx(2, vec![coin(9, 0)], 10, 10), &unspent(1));
    assert_eq!(r2, InsertResult::RejectedConflict(2));
    assert!(p.contains(1));
}

#[test]
fn conflict_strictly_higher_priority_evicts_loser() {
    let mut p = PendingPool::new(cfg(10, 1000));
    let (r1, _) = p.insert(tx(1, vec![coin(9, 0)], 10, 10), &unspent(1));
    assert_eq!(r1, InsertResult::Admitted);
    let (r2, events) = p.insert(tx(2, vec![coin(9, 0)], 11, 10), &unspent(1));
    assert_eq!(r2, InsertResult::Admitted);
    assert_eq!(
        events,
        vec![
            StatusMessage { tx_id: 1, event: StatusEvent::SqueezedOut(DropReason::Conflict) },
            StatusMessage { tx_id: 2, event: StatusEvent::Submitted },
        ]
    );
    assert!(!p.contains(1));
    assert!(p.contains(2));
    assert_eq!(p.len(), 1);
}

#[test]
fn capacity_count_evicts_lowest_priority_oldest_entry() {
    let mut p = PendingPool::new(cfg(3, 10_000));
    let (r1, _) = p.insert(tx(1, vec![coin(9, 0)], 5, 10), &unspent(1));
    let (r2, _) = p.insert(tx(2, vec![coin(9, 1)], 5, 10), &unspent(1));
    let (r3, _) = p.insert(tx(3, vec![coin(9, 2)], 5, 10), &unspent(1));
    assert_eq!(r1, InsertResult::Admitted);
    assert_eq!(r2, InsertResult::Admitted);
    assert_eq!(r3, InsertResult::Admitted);
    let (r4, events) = p.insert(tx(4, vec![coin(9, 3)], 50, 10), &unspent(1));
    assert_eq!(r4, InsertResult::Admitted);
    assert_eq!(
        events,
        vec![
            StatusMessage { tx_id: 4, event: StatusEvent::Submitted },
            StatusMessage { tx_id: 1, event: StatusEvent::SqueezedOut(DropReason::Capacity) },
        ]
    );
    assert_eq!(p.len(), 3);
    assert!(!p.contains(1));
    assert!(p.contains(2));
    assert!(p.contains(3));
    assert!(p.contains(4));
}

#[test]
fn capacity_incoming_lowest_priority_is_itself_evicted() {
    let mut p = PendingPool::new(cfg(1, 10_000));
    let (r1, _) = p.insert(tx(1, vec![coin(9, 0)], 10, 10), &unspent(1));
    assert_eq!(r1, InsertResult::Admitted);
    let (r2, events) = p.insert(tx(2, vec![coin(9, 1)], 5, 10), &unspent(1));
    assert_eq!(r2, InsertResult::RejectedCapacity);
    assert_eq!(
        events,
        vec![
            StatusMessage { tx_id: 2, event: StatusEvent::Submitted },
            StatusMessage { tx_id: 2, event: StatusEvent::SqueezedOut(DropReason::Capacity) },
        ]
    );
    assert!(p.contains(1));
    assert!(!p.contains(2));
}

#[test]
fn capacity_weight_bound_is_enforced() {
    let mut p = PendingPool::new(cfg(10, 25));
    let (r1, _) = p.insert(tx(1, vec![coin(9, 0)], 5, 10), &unspent(1));
    let (r2, _) = p.insert(tx(2, vec![coin(9, 1)], 8, 10), &unspent(1));
    assert_eq!(r1, InsertResult::Admitted);
    assert_eq!(r2, InsertResult::Admitted);
    let (r3, events) = p.insert(tx(3, vec![coin(9, 2)], 9, 10), &unspent(1));
    assert_eq!(r3, InsertResult::Admitted);
    assert_eq!(
        events,
        vec![
            StatusMessage { tx_id: 3, event: StatusEvent::Submitted },
            StatusMessage { tx_id: 1, event: StatusEvent::SqueezedOut(DropReason::Capacity) },
        ]
    );
    assert_eq!(p.total_weight(), 20);
}

#[test]
fn remove_drops_named_entries_silently() {
    let mut p = PendingPool::new(cfg(10, 1000));
    p.insert(tx(1, vec![coin(9, 0)], 10, 10), &unspent(1));
    p.insert(tx(2, vec![coin(9, 1)], 10, 10), &unspent(1));
    p.insert(tx(3, vec![coin(9, 2)], 10, 10), &unspent(1));
    p.remove(&vec![1, 3]);
    assert!(!p.contains(1));
    assert!(p.contains(2));
    assert!(!p.contains(3));
    assert_eq!(p.len(), 1);
}

#[test]
fn select_orders_by_priority_up_to_budget() {
    let mut p = PendingPool::new(cfg(10, 1000));
    p.insert(tx(1, vec![coin(9, 0)], 5, 10), &unspent(1));
    p.insert(tx(2, vec![coin(9, 1)], 9, 10), &unspent(1));
    p.insert(tx(3, vec![coin(9, 2)], 7, 10), &unspent(1));
    let picked = p.select(25);
    let ids: Vec<u64> = picked.iter().map(|t| t.id).collect();
    assert_eq!(ids, vec![2, 3]);
    let all = p.select(1000);
    let all_ids: Vec<u64> = all.iter().map(|t| t.id).collect();
    assert_eq!(all_ids, vec![2, 3, 1]);
}

#[test]
fn select_breaks_priority_ties_by_age() {
    let mut p = PendingPool::new(cfg(10, 1000));
    p.insert(tx(7, vec![coin(9, 0)], 5, 10), &unspent(1));
    p.insert(tx(8, vec![coin(9, 1)], 5, 10), &unspent(1));
    let all = p.select(1000);
    let ids: Vec<u64> = all.iter().map(|t| t.id).collect();
    assert_eq!(ids, vec![7, 8]);
}

#[test]
fn capacity_weight_rejects_lowest_priority_incoming() {
    let mut p = PendingPool::new(cfg(10, 15));
    let (r1, _) = p.insert(tx(1, vec![coin(9, 0)], 10, 10), &unspent(1));
    assert_eq!(r1, InsertResult::Admitted);
    let (r2, _) = p.insert(tx(2, vec![coin(9, 1)], 5, 10), &unspent(1));
    assert_eq!(r2, InsertResult::RejectedCapacity);
    assert!(p.contains(1));
    assert!(!p.contains(2));
    assert_eq!(p.total_weight(), 10);
}

#[test]
fn select_with_zero_budget_is_empty() {
    let mut p = PendingPool::new(cfg(10, 1000));
    p.insert(tx(1, vec![coin(9, 0)], 5, 10), &unspent(1));
    assert!(p.select(0).is_empty());
}
