use vstd::prelude::*;
use crate::config::Config;
use crate::notifier::{push_bounded_all, StatusNotifier};
use crate::pool::{admit_step, contains_id, selection, AdmitOutcome, PendingPool};
use crate::reactor::{block_apply, block_event_trace, ImportReactor};
use crate::relay::{process_envelope, verdict_of};
use crate::types::{
    CoinState, GossipEnvelope, ImportFault, InsertResult, SealedBlock, StatusEvent, StatusMessage,
    Transaction, Verdict,
};

verus! {

/// The lifecycle state of the service.
#[derive(Clone, Copy, PartialEq, Eq, Structural, Debug)]
pub enum ServicePhase {
    Created,
    Running,
    Stopped,
    /// The block-import sequence failed: the pool can no longer be trusted to
    /// reflect chain state, so nothing is admitted any more.
    Failed,
}

/// Why the service could not start.
#[derive(Clone, Copy, PartialEq, Eq, Structural, Debug)]
pub enum StartError {
    AlreadyRunning,
    /// A required collaborator sequence could not be obtained.
    CollaboratorUnavailable,
}

/// Why the service did not stop cleanly.
#[derive(Clone, Copy, PartialEq, Eq, Structural, Debug)]
pub enum StopError {
    NotRunning,
    /// The workers did not drain within the bounded interval.
    ShutdownTimeout,
}

/// Why a call on the service was refused outright.
#[derive(Clone, Copy, PartialEq, Eq, Structural, Debug)]
pub enum ServiceError {
    NotRunning,
}

/// Why a block import failed at the service.
#[derive(Clone, Copy, PartialEq, Eq, Structural, Debug)]
pub enum ImportError {
    NotRunning,
    /// The block's height did not strictly increase: fatal, the service fails.
    HeightRegression,
}

/// The status events one API submission publishes: a validation rejection is
/// reported as such; otherwise exactly the admission attempt's events.
pub open spec fn submit_events(o: AdmitOutcome, id: u64) -> Seq<StatusMessage> {
    match o.result {
        InsertResult::RejectedValidation(e) => seq![
            StatusMessage { tx_id: id, event: StatusEvent::Rejected(e) },
        ],
        _ => o.events,
    }
}

/// The lifecycle container: wires the pool, the notifier, the gossip relay
/// and the import reactor together and exposes the public API. All pool
/// mutations go through `&mut self`, so they are serialized by construction.
pub struct Service {
    pub pool: PendingPool,
    pub notifier: StatusNotifier,
    pub reactor: ImportReactor,
    pub phase: ServicePhase,
    pub outbound: Vec<u64>,
}

impl Service {
    /// The service invariant: the pool and the notifier are well formed and
    /// the notifier buffers are bounded by the configured capacity.
    pub open spec fn wf(&self) -> bool {
        &&& self.pool.wf()
        &&& self.notifier.wf()
        &&& self.notifier.capacity == self.pool.cfg.status_channel_capacity
    }

    /// The configuration the service runs under.
    pub open spec fn spec_config(&self) -> Config {
        self.pool.cfg
    }

    /// A freshly built service: empty pool, no subscribers, not yet started.
    pub fn new(cfg: Config) -> (r: Self)
        ensures
            r.wf(),
            r.spec_config() == cfg,
            r.phase == ServicePhase::Created,
            r.pool@ == Seq::<crate::pool::EntryView>::empty(),
            r.outbound@ == Seq::<u64>::empty(),
            r.notifier@ == Seq::<Seq<StatusMessage>>::empty(),
            r.reactor.last_height is None,
    {
        Service {
            pool: PendingPool::new(cfg),
            notifier: StatusNotifier::new(cfg.status_channel_capacity),
            reactor: ImportReactor::new(),
            phase: ServicePhase::Created,
            outbound: Vec::new(),
        }
    }

    /// Spins up the workers; fails fast when a required collaborator sequence
    /// cannot be obtained, and refuses a second start.
    pub fn start(&mut self, collaborators_ready: bool) -> (r: Result<(), StartError>)
        requires
            old(self).wf(),
        ensures
            final(self).wf(),
            old(self).phase == ServicePhase::Running ==> r == Result::<(), StartError>::Err(
                StartError::AlreadyRunning,
            ) && *final(self) == *old(self),
            old(self).phase != ServicePhase::Running && !collaborators_ready ==> r == Result::<
                (),
                StartError,
            >::Err(StartError::CollaboratorUnavailable) && *final(self) == *old(self),
            old(self).phase != ServicePhase::Running && collaborators_ready ==> r == Result::<
                (),
                StartError,
            >::Ok(()) && *final(self) == (Service { phase: ServicePhase::Running, ..*old(self) }),
    {
        match self.phase {
            ServicePhase::Running => Err(StartError::AlreadyRunning),
            _ => {
                if !collaborators_ready {
                    return Err(StartError::CollaboratorUnavailable);
                }
                self.phase = ServicePhase::Running;
                Ok(())
            },
        }
    }

    /// Signals the workers to exit at their next suspension point and waits
    /// for drain within a bounded interval; the service stops either way, but
    /// an exceeded interval is reported.
    pub fn stop(&mut self, drained_in_time: bool) -> (r: Result<(), StopError>)
        requires
            old(self).wf(),
        ensures
            final(self).wf(),
            old(self).phase != ServicePhase::Running ==> r == Result::<(), StopError>::Err(
                StopError::NotRunning,
            ) && *final(self) == *old(self),
            old(self).phase == ServicePhase::Running ==> *final(self) == (Service {
                phase: ServicePhase::Stopped,
                ..*old(self)
            }) && r == (if drained_in_time {
                Result::<(), StopError>::Ok(())
            } else {
                Result::<(), StopError>::Err(StopError::ShutdownTimeout)
            }),
    {
        match self.phase {
            ServicePhase::Running => {
                self.phase = ServicePhase::Stopped;
                if drained_in_time {
                    Ok(())
                } else {
                    Err(StopError::ShutdownTimeout)
                }
            },
            _ => Err(StopError::NotRunning),
        }
    }

    /// The synchronous submission API: one admission attempt, its events
    /// published to every subscriber, and, on admission, the transaction
    /// queued for exactly one broadcast.
    pub fn submit(&mut self, tx: Transaction, coin_states: &Vec<CoinState>) -> (r: Result<
        InsertResult,
        ServiceError,
    >)
        requires
            old(self).wf(),
            coin_states@.len() == tx.inputs@.len(),
        ensures
            final(self).wf(),
            final(self).phase == old(self).phase,
            old(self).phase != ServicePhase::Running ==> r == Result::<
                InsertResult,
                ServiceError,
            >::Err(ServiceError::NotRunning) && *final(self) == *old(self),
            old(self).phase == ServicePhase::Running ==> ({
                let o = admit_step(
                    old(self).pool@,
                    tx@,
                    coin_states@,
                    old(self).pool.next_stamp,
                    old(self).pool.cfg,
                );
                &&& r == Result::<InsertResult, ServiceError>::Ok(o.result)
                &&& final(self).pool@ == o.pool
                &&& final(self).notifier@.len() == old(self).notifier@.len()
                &&& forall|k: int|
                    0 <= k < old(self).notifier@.len() ==> final(self).notifier@[k]
                        == push_bounded_all(
                        old(self).notifier@[k],
                        submit_events(o, tx.id),
                        old(self).notifier.capacity as int,
                    )
                &&& final(self).outbound@ == if o.result is Admitted {
                    old(self).outbound@.push(tx.id)
                } else {
                    old(self).outbound@
                }
            }),
    {
        match self.phase {
            ServicePhase::Running => {},
            _ => {
                return Err(ServiceError::NotRunning);
            },
        }
        let id = tx.id;
        let (res, events) = self.pool.insert(tx, coin_states);
        match res {
            InsertResult::RejectedValidation(e) => {
                let mut evs: Vec<StatusMessage> = Vec::new();
                evs.push(StatusMessage { tx_id: id, event: StatusEvent::Rejected(e) });
                self.notifier.publish_all(&evs);
            },
            _ => {
                self.notifier.publish_all(&events);
            },
        }
        if let InsertResult::Admitted = res {
            self.outbound.push(id);
        }
        Ok(res)
    }

    /// Handles one inbound gossip envelope: a pooled duplicate is ignored
    /// with no new events; otherwise one admission attempt runs, its events
    /// are published, and its outcome maps to the verdict the caller reports
    /// back, exactly once per envelope. Gossip-origin admissions are not
    /// queued for re-broadcast.
    pub fn submit_gossip(&mut self, env: &GossipEnvelope, coin_states: &Vec<CoinState>) -> (r:
        Result<Verdict, ServiceError>)
        requires
            old(self).wf(),
            coin_states@.len() == env.tx.inputs@.len(),
        ensures
            final(self).wf(),
            final(self).phase == old(self).phase,
            final(self).outbound == old(self).outbound,
            old(self).phase != ServicePhase::Running ==> r == Result::<Verdict, ServiceError>::Err(
                ServiceError::NotRunning,
            ) && *final(self) == *old(self),
            old(self).phase == ServicePhase::Running && contains_id(old(self).pool@, env.tx.id)
                ==> r == Result::<Verdict, ServiceError>::Ok(Verdict::Ignore) && final(self).pool@
                == old(self).pool@ && final(self).notifier == old(self).notifier,
            old(self).phase == ServicePhase::Running && !contains_id(old(self).pool@, env.tx.id)
                ==> ({
                let o = admit_step(
                    old(self).pool@,
                    env.tx@,
                    coin_states@,
                    old(self).pool.next_stamp,
                    old(self).pool.cfg,
                );
                &&& r == Result::<Verdict, ServiceError>::Ok(verdict_of(o.result))
                &&& final(self).pool@ == o.pool
                &&& final(self).notifier@.len() == old(self).notifier@.len()
                &&& forall|k: int|
                    0 <= k < old(self).notifier@.len() ==> final(self).notifier@[k]
                        == push_bounded_all(
                        old(self).notifier@[k],
                        o.events,
                        old(self).notifier.capacity as int,
                    )
            }),
    {
        match self.phase {
            ServicePhase::Running => {},
            _ => {
                return Err(ServiceError::NotRunning);
            },
        }
        let (v, events) = process_envelope(&mut self.pool, env, coin_states);
        match v {
            Verdict::Ignore => {},
            _ => {
                self.notifier.publish_all(&events);
            },
        }
        proof {
            if contains_id(old(self).pool@, env.tx.id) {
                assert(v == Verdict::Ignore);
            }
        }
        Ok(v)
    }

    /// Takes the transactions queued for broadcast; each admission queues its
    /// transaction exactly once, so draining hands each out exactly once.
    pub fn take_outbound(&mut self) -> (r: Vec<u64>)
        requires
            old(self).wf(),
        ensures
            final(self).wf(),
            r@ == old(self).outbound@,
            final(self).outbound@ == Seq::<u64>::empty(),
            final(self).pool == old(self).pool,
            final(self).notifier == old(self).notifier,
            final(self).reactor == old(self).reactor,
            final(self).phase == old(self).phase,
    {
        let mut drained: Vec<u64> = Vec::new();
        core::mem::swap(&mut drained, &mut self.outbound);
        drained
    }

    /// Applies one imported block: included entries leave with
    /// `Included(height)`, entries whose coin the block spent leave with
    /// `SqueezedOut(BlockConflict)`, and the events are published. A height
    /// regression is fatal: the pool is untouched and the service fails.
    pub fn on_block(&mut self, block: &SealedBlock) -> (r: Result<(), ImportError>)
        requires
            old(self).wf(),
        ensures
            final(self).wf(),
            final(self).outbound == old(self).outbound,
            old(self).phase != ServicePhase::Running ==> r == Result::<(), ImportError>::Err(
                ImportError::NotRunning,
            ) && *final(self) == *old(self),
            old(self).phase == ServicePhase::Running && !old(self).reactor.accepts(block.height)
                ==> ({
                &&& r == Result::<(), ImportError>::Err(ImportError::HeightRegression)
                &&& final(self).phase == ServicePhase::Failed
                &&& final(self).pool@ == old(self).pool@
                &&& final(self).notifier == old(self).notifier
            }),
            old(self).phase == ServicePhase::Running && old(self).reactor.accepts(block.height)
                ==> ({
                let evs = block_event_trace(old(self).pool@, block@);
                &&& r == Result::<(), ImportError>::Ok(())
                &&& final(self).phase == ServicePhase::Running
                &&& final(self).pool@ == block_apply(old(self).pool@, block@)
                &&& final(self).reactor.last_height == Some(block.height)
                &&& final(self).notifier@.len() == old(self).notifier@.len()
                &&& forall|k: int|
                    0 <= k < old(self).notifier@.len() ==> final(self).notifier@[k]
                        == push_bounded_all(
                        old(self).notifier@[k],
                        evs,
                        old(self).notifier.capacity as int,
                    )
            }),
    {
        match self.phase {
            ServicePhase::Running => {},
            _ => {
                return Err(ImportError::NotRunning);
            },
        }
        let outcome = self.reactor.process_block(&mut self.pool, block);
        match outcome {
            Ok(events) => {
                self.notifier.publish_all(&events);
                Ok(())
            },
            Err(ImportFault::HeightRegression) => {
                self.phase = ServicePhase::Failed;
                Err(ImportError::HeightRegression)
            },
        }
    }

    /// The block-import sequence ended while the service ran: fatal, the
    /// service stops admitting rather than trust stale coin assumptions.
    pub fn on_import_stream_closed(&mut self)
        requires
            old(self).wf(),
        ensures
            final(self).wf(),
            *final(self) == (Service { phase: ServicePhase::Failed, ..*old(self) }),
    {
        self.phase = ServicePhase::Failed;
    }

    /// Whether the pool holds an entry for the given transaction ID.
    pub fn contains(&self, id: u64) -> (b: bool)
        ensures
            b == contains_id(self.pool@, id),
    {
        self.pool.contains(id)
    }

    /// The number of pending entries.
    pub fn pending_count(&self) -> (n: usize)
        ensures
            n == self.pool@.len(),
    {
        self.pool.len()
    }

    /// A read-only snapshot for block building: pending transactions by
    /// descending priority up to the weight budget.
    pub fn query(&self, max_weight: u64) -> (r: Vec<Transaction>)
        requires
            self.wf(),
        ensures
            r@.map_values(|t: Transaction| t@) == selection(self.pool@, max_weight as int),
    {
        self.pool.select(max_weight)
    }

    /// Registers a status subscriber; only events published after this call
    /// are delivered to it.
    pub fn subscribe_status(&mut self) -> (id: usize)
        requires
            old(self).wf(),
        ensures
            final(self).wf(),
            id == old(self).notifier@.len(),
            final(self).notifier@ == old(self).notifier@.push(Seq::<StatusMessage>::empty()),
            final(self).pool == old(self).pool,
            final(self).phase == old(self).phase,
            final(self).outbound == old(self).outbound,
    {
        self.notifier.subscribe()
    }

    /// Takes the named subscriber's buffered events.
    pub fn drain_status(&mut self, id: usize) -> (r: Vec<StatusMessage>)
        requires
            old(self).wf(),
            id < old(self).notifier@.len(),
        ensures
            final(self).wf(),
            r@ == old(self).notifier@[id as int],
            final(self).notifier@ == old(self).notifier@.update(
                id as int,
                Seq::<StatusMessage>::empty(),
            ),
            final(self).pool == old(self).pool,
            final(self).phase == old(self).phase,
            final(self).outbound == old(self).outbound,
    {
        self.notifier.drain(id)
    }
}

} // verus!
