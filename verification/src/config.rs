use vstd::prelude::*;

verus! {

/// The recognized configuration surface of the pool service.
///
/// `max_pool_count` and `max_pool_weight` bound the pool synchronously with
/// admission; `min_gas_price` and `max_tx_size` parameterize validation;
/// `status_channel_capacity` bounds each status subscriber's buffer.
#[derive(Clone, Copy, PartialEq, Eq, Structural, Debug)]
pub struct Config {
    pub max_pool_count: usize,
    pub max_pool_weight: u64,
    pub min_gas_price: u64,
    pub max_tx_size: u64,
    pub status_channel_capacity: usize,
}

} // verus!
