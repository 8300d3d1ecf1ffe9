use vstd::prelude::*;
use crate::config::Config;
use crate::types::{CoinRef, CoinState, Transaction, TxView, ValidationError};

verus! {

/// A transaction is structurally well formed when it consumes at least one
/// coin and names no coin twice.
pub open spec fn well_formed(tx: TxView) -> bool {
    &&& tx.inputs.len() > 0
    &&& forall|i: int, j: int| 0 <= i < j < tx.inputs.len() ==> tx.inputs[i] != tx.inputs[j]
}

/// The verdict on the inputs from position `i` on: the first input whose coin
/// the store does not know, or knows as spent, decides.
pub open spec fn input_error_from(
    inputs: Seq<CoinRef>,
    coins: Seq<CoinState>,
    i: int,
) -> Option<ValidationError>
    decreases inputs.len() - i,
{
    if i < 0 || i >= inputs.len() {
        None
    } else {
        match coins[i] {
            CoinState::Unknown => Some(ValidationError::UnknownInput),
            CoinState::Spent => Some(ValidationError::SpentInput),
            CoinState::Unspent { .. } => input_error_from(inputs, coins, i + 1),
        }
    }
}

/// The validator's verdict. The checks run in order (structural
/// well-formedness, size, price, then each input coin in order) and the
/// first failure decides. `coins[i]` is the store's answer for `inputs[i]`.
pub open spec fn validate_spec(tx: TxView, coins: Seq<CoinState>, cfg: Config) -> Option<
    ValidationError,
> {
    if !well_formed(tx) {
        Some(ValidationError::Malformed)
    } else if tx.size > cfg.max_tx_size {
        Some(ValidationError::Oversized)
    } else if tx.gas_price < cfg.min_gas_price {
        Some(ValidationError::Underpriced)
    } else {
        input_error_from(tx.inputs, coins, 0)
    }
}

/// Stateless validation of one transaction against the coin store's answers
/// and the configured limits; `coin_states[i]` is the store's answer for
/// `tx.inputs[i]`. Identical inputs always yield the identical verdict, and
/// nothing is mutated.
pub fn validate(tx: &Transaction, coin_states: &Vec<CoinState>, cfg: &Config) -> (r: Option<
    ValidationError,
>)
    requires
        coin_states@.len() == tx.inputs@.len(),
    ensures
        r == validate_spec(tx@, coin_states@, *cfg),
{
    let n = tx.inputs.len();
    if n == 0 {
        return Some(ValidationError::Malformed);
    }
    let mut i: usize = 0;
    while i < n
        invariant
            n == tx.inputs@.len(),
            i <= n,
            forall|p: int, q: int|
                0 <= p < q < n && p < i ==> tx.inputs@[p] != tx.inputs@[q],
        decreases n - i,
    {
        let mut j: usize = i + 1;
        while j < n
            invariant
                n == tx.inputs@.len(),
                i < n,
                i < j <= n,
                forall|q: int| i < q < j ==> tx.inputs@[i as int] != tx.inputs@[q],
            decreases n - j,
        {
            if tx.inputs[i] == tx.inputs[j] {
                return Some(ValidationError::Malformed);
            }
            j += 1;
        }
        i += 1;
    }
    proof {
        assert(well_formed(tx@));
    }
    if tx.size > cfg.max_tx_size {
        return Some(ValidationError::Oversized);
    }
    if tx.gas_price < cfg.min_gas_price {
        return Some(ValidationError::Underpriced);
    }
    let mut k: usize = 0;
    while k < n
        invariant
            n == tx.inputs@.len(),
            coin_states@.len() == n,
            k <= n,
            well_formed(tx@),
            tx@.size <= cfg.max_tx_size,
            tx@.gas_price >= cfg.min_gas_price,
            input_error_from(tx.inputs@, coin_states@, 0) == input_error_from(
                tx.inputs@,
                coin_states@,
                k as int,
            ),
        decreases n - k,
    {
        proof {
            assert(input_error_from(tx.inputs@, coin_states@, k as int) == match coin_states@[k as int] {
                CoinState::Unknown => Some(ValidationError::UnknownInput),
                CoinState::Spent => Some(ValidationError::SpentInput),
                CoinState::Unspent { .. } => input_error_from(tx.inputs@, coin_states@, k as int + 1),
            });
        }
        match coin_states[k] {
            CoinState::Unknown => {
                return Some(ValidationError::UnknownInput);
            },
            CoinState::Spent => {
                return Some(ValidationError::SpentInput);
            },
            CoinState::Unspent { .. } => {},
        }
        k += 1;
    }
    None
}

} // verus!
