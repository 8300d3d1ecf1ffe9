use vstd::prelude::*;

verus! {

/// A reference to a coin: the transaction that created it and the index of
/// the output within that transaction.
#[derive(Clone, Copy, PartialEq, Eq, Structural, Debug)]
pub struct CoinRef {
    pub tx_id: u64,
    pub output_index: u16,
}

/// What the external coin store reports about a coin at lookup time.
#[derive(Clone, Copy, PartialEq, Eq, Structural, Debug)]
pub enum CoinState {
    Unspent { owner: u64, amount: u64 },
    Spent,
    Unknown,
}

/// A transaction as the pool sees it: a content-derived identifier, the coins
/// it consumes, the coins it creates, a priority metric (gas price) and a
/// size/weight cost.
pub struct Transaction {
    pub id: u64,
    pub inputs: Vec<CoinRef>,
    pub outputs: Vec<CoinRef>,
    pub gas_price: u64,
    pub size: u64,
}

/// The mathematical image of a [`Transaction`].
#[verifier::ext_equal]
pub ghost struct TxView {
    pub id: u64,
    pub inputs: Seq<CoinRef>,
    pub outputs: Seq<CoinRef>,
    pub gas_price: u64,
    pub size: u64,
}

impl View for Transaction {
    type V = TxView;

    open spec fn view(&self) -> TxView {
        TxView {
            id: self.id,
            inputs: self.inputs@,
            outputs: self.outputs@,
            gas_price: self.gas_price,
            size: self.size,
        }
    }
}

impl Clone for Transaction {
    fn clone(&self) -> (r: Self)
        ensures
            r@ == self@,
    {
        let inputs = self.inputs.clone();
        let outputs = self.outputs.clone();
        proof {
            assert(inputs@ =~= self.inputs@);
            assert(outputs@ =~= self.outputs@);
        }
        Transaction {
            id: self.id,
            inputs,
            outputs,
            gas_price: self.gas_price,
            size: self.size,
        }
    }
}

/// Why an admitted entry left the pool without being included.
#[derive(Clone, Copy, PartialEq, Eq, Structural, Debug)]
pub enum DropReason {
    /// Evicted by a strictly higher-priority transaction claiming one of its coins.
    Conflict,
    /// Evicted to keep the pool within its configured count/weight bounds.
    Capacity,
    /// Evicted because an imported block spent one of its coins.
    BlockConflict,
}

/// Why a transaction was refused at validation.
#[derive(Clone, Copy, PartialEq, Eq, Structural, Debug)]
pub enum ValidationError {
    Malformed,
    Oversized,
    Underpriced,
    UnknownInput,
    SpentInput,
}

/// A lifecycle event for a pool entry.
#[derive(Clone, Copy, PartialEq, Eq, Structural, Debug)]
pub enum StatusEvent {
    Submitted,
    Included(u64),
    SqueezedOut(DropReason),
    Rejected(ValidationError),
}

/// A status event tagged with the transaction it concerns.
#[derive(Clone, Copy, PartialEq, Eq, Structural, Debug)]
pub struct StatusMessage {
    pub tx_id: u64,
    pub event: StatusEvent,
}

/// The signal reported back to the network layer for an inbound gossip
/// transaction.
#[derive(Clone, Copy, PartialEq, Eq, Structural, Debug)]
pub enum Verdict {
    Accept,
    Reject,
    Ignore,
}

/// The outcome of one admission attempt.
#[derive(Clone, Copy, PartialEq, Eq, Structural, Debug)]
pub enum InsertResult {
    /// The transaction is now a pool entry.
    Admitted,
    /// The pool already holds an entry with this transaction ID; nothing changed.
    RejectedDuplicate,
    /// Validation refused the transaction; nothing changed.
    RejectedValidation(ValidationError),
    /// The transaction lost a coin conflict against an existing entry; the
    /// carried value is the ID of the losing (incoming) transaction.
    RejectedConflict(u64),
    /// The pool cannot hold the transaction within its capacity bounds.
    RejectedCapacity,
}

/// A fatal inconsistency in the block-import sequence: the pool can no
/// longer be trusted to reflect chain state, so the service must stop.
#[derive(Clone, Copy, PartialEq, Eq, Structural, Debug)]
pub enum ImportFault {
    /// The imported block's height did not strictly increase.
    HeightRegression,
}

/// A transaction received from the network together with its provenance,
/// used only to route the verdict back; never persisted.
pub struct GossipEnvelope {
    pub tx: Transaction,
    pub peer_id: u64,
    pub message_id: u64,
}

/// A committed block as delivered by the block-import collaborator: the
/// included transactions and a monotonically increasing height.
pub struct SealedBlock {
    pub height: u64,
    pub txs: Vec<Transaction>,
}

/// The mathematical image of a [`SealedBlock`].
#[verifier::ext_equal]
pub ghost struct BlockView {
    pub height: u64,
    pub txs: Seq<TxView>,
}

impl View for SealedBlock {
    type V = BlockView;

    open spec fn view(&self) -> BlockView {
        BlockView { height: self.height, txs: self.txs@.map_values(|t: Transaction| t@) }
    }
}

} // verus!
