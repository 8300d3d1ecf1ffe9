use vstd::prelude::*;
use crate::pool::{admit_step, contains_id, PendingPool};
use crate::types::{CoinState, GossipEnvelope, InsertResult, StatusMessage, Verdict};

verus! {

/// The verdict an admission outcome maps to: admission is `Accept`, any
/// rejection variant is `Reject`.
pub open spec fn verdict_of(r: InsertResult) -> Verdict {
    match r {
        InsertResult::Admitted => Verdict::Accept,
        _ => Verdict::Reject,
    }
}

/// Handles one inbound gossip envelope: a transaction already pooled is
/// ignored without mutation or events; otherwise one admission attempt runs
/// and its outcome maps to the verdict. Exactly one verdict is returned per
/// envelope, whatever the outcome, for the caller to report back.
pub fn process_envelope(
    pool: &mut PendingPool,
    env: &GossipEnvelope,
    coin_states: &Vec<CoinState>,
) -> (r: (Verdict, Vec<StatusMessage>))
    requires
        old(pool).wf(),
        coin_states@.len() == env.tx.inputs@.len(),
    ensures
        final(pool).wf(),
        final(pool).cfg == old(pool).cfg,
        contains_id(old(pool)@, env.tx.id) ==> r.0 == Verdict::Ignore && final(pool)@ == old(
            pool,
        )@ && r.1@ == Seq::<StatusMessage>::empty() && final(pool).next_stamp == old(
            pool,
        ).next_stamp,
        !contains_id(old(pool)@, env.tx.id) ==> ({
            let o = admit_step(
                old(pool)@,
                env.tx@,
                coin_states@,
                old(pool).next_stamp,
                old(pool).cfg,
            );
            &&& r.0 == verdict_of(o.result)
            &&& final(pool)@ == o.pool
            &&& r.1@ == o.events
        }),
{
    if pool.contains(env.tx.id) {
        return (Verdict::Ignore, Vec::new());
    }
    let tx = env.tx.clone();
    let (res, events) = pool.insert(tx, coin_states);
    let v = match res {
        InsertResult::Admitted => Verdict::Accept,
        _ => Verdict::Reject,
    };
    (v, events)
}

} // verus!
