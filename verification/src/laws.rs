use vstd::prelude::*;
use crate::config::Config;
use crate::pool::{
    admit_step, conflict_event_trace, contains_id, distinct_stamps, filter_keep, is_victim,
    keeps_coins, lemma_conflict_symmetric, lemma_filter_keep_membership, lemma_total_size_remove,
    lemma_victim_exists, over_caps, prune, stamps_below, total_size, txs_conflict, EntryView,
    PendingPool,
};
use crate::reactor::{block_apply, id_in_block, not_included, spared_by_block};
use crate::types::{
    BlockView, CoinState, DropReason, InsertResult, StatusEvent, StatusMessage, TxView,
};
use crate::validator::validate_spec;

verus! {

/// A filter that keeps every entry changes nothing.
proof fn lemma_filter_keep_all(s: Seq<EntryView>, keep: spec_fn(EntryView) -> bool)
    requires
        forall|i: int| 0 <= i < s.len() ==> keep(#[trigger] s[i]),
    ensures
        filter_keep(s, keep) == s,
    decreases s.len(),
{
    if s.len() > 0 {
        let sd = s.drop_last();
        assert forall|i: int| 0 <= i < sd.len() implies keep(#[trigger] sd[i]) by {
            assert(sd[i] == s[i]);
        }
        lemma_filter_keep_all(sd, keep);
        assert(keep(s[s.len() - 1]));
        assert(sd.push(s.last()) =~= s);
    }
}

/// With no conflicting entry there is no conflict event.
proof fn lemma_conflict_trace_empty(s: Seq<EntryView>, tx: TxView)
    requires
        forall|i: int| 0 <= i < s.len() ==> !txs_conflict((#[trigger] s[i]).tx, tx),
    ensures
        conflict_event_trace(s, tx) == Seq::<StatusMessage>::empty(),
    decreases s.len(),
{
    if s.len() > 0 {
        let sd = s.drop_last();
        assert forall|i: int| 0 <= i < sd.len() implies !txs_conflict(
            (#[trigger] sd[i]).tx,
            tx,
        ) by {
            assert(sd[i] == s[i]);
        }
        lemma_conflict_trace_empty(sd, tx);
        assert(!txs_conflict(s[s.len() - 1].tx, tx));
    }
}

/// One admission of a fresh, valid, conflict-free transaction into a pool
/// with room: the entry is appended, nothing else changes, and exactly one
/// `Submitted` event is emitted.
proof fn lemma_admit_fresh(
    s: Seq<EntryView>,
    tx: TxView,
    coins: Seq<CoinState>,
    stamp: u64,
    cfg: Config,
)
    requires
        validate_spec(tx, coins, cfg) is None,
        !contains_id(s, tx.id),
        forall|i: int| 0 <= i < s.len() ==> !txs_conflict((#[trigger] s[i]).tx, tx),
        stamp < u64::MAX,
        s.len() + 1 <= cfg.max_pool_count,
        total_size(s) + tx.size <= cfg.max_pool_weight,
    ensures
        ({
            let o = admit_step(s, tx, coins, stamp, cfg);
            &&& o.result == InsertResult::Admitted
            &&& o.pool == s.push(EntryView { tx, stamp })
            &&& o.events == seq![StatusMessage { tx_id: tx.id, event: StatusEvent::Submitted }]
        }),
{
    assert forall|i: int|
        0 <= i < s.len() && txs_conflict((#[trigger] s[i]).tx, tx) implies tx.gas_price
        > s[i].tx.gas_price by {
        assert(!txs_conflict(s[i].tx, tx));
    }
    let keepf = keeps_coins(tx);
    assert forall|i: int| 0 <= i < s.len() implies keepf(#[trigger] s[i]) by {
        assert(!txs_conflict(s[i].tx, tx));
    }
    lemma_filter_keep_all(s, keepf);
    lemma_conflict_trace_empty(s, tx);
    let tentative = s.push(EntryView { tx, stamp });
    assert(tentative.drop_last() =~= s);
    assert(total_size(tentative) == total_size(s) + tx.size);
    assert(!over_caps(tentative, cfg));
    assert(prune(tentative, cfg) == tentative);
    assert(tentative[tentative.len() - 1].tx.id == tx.id);
    assert(contains_id(tentative, tx.id));
    let o = admit_step(s, tx, coins, stamp, cfg);
    assert(o.events =~= seq![StatusMessage { tx_id: tx.id, event: StatusEvent::Submitted }]);
}

/// Uniqueness: in every well-formed pool state, no two entries share a
/// transaction ID.
pub proof fn lemma_pool_unique_ids(p: PendingPool)
    requires
        p.wf(),
    ensures
        forall|i: int, j: int|
            0 <= i < p@.len() && 0 <= j < p@.len() && i != j ==> (#[trigger] p@[i]).tx.id
                != (#[trigger] p@[j]).tx.id,
{
}

/// No double-spend in the pool: in every well-formed pool state, no coin is
/// consumed by two entries simultaneously.
pub proof fn lemma_pool_no_double_spend(p: PendingPool)
    requires
        p.wf(),
    ensures
        forall|i: int, j: int, x: int, y: int|
            #![trigger p@[i].tx.inputs[x], p@[j].tx.inputs[y]]
            0 <= i < p@.len() && 0 <= j < p@.len() && i != j && 0 <= x < p@[i].tx.inputs.len() && 0
                <= y < p@[j].tx.inputs.len() ==> p@[i].tx.inputs[x] != p@[j].tx.inputs[y],
{
    assert forall|i: int, j: int, x: int, y: int|
        #![trigger p@[i].tx.inputs[x], p@[j].tx.inputs[y]]
        0 <= i < p@.len() && 0 <= j < p@.len() && i != j && 0 <= x < p@[i].tx.inputs.len() && 0 <= y
            < p@[j].tx.inputs.len() implies p@[i].tx.inputs[x] != p@[j].tx.inputs[y] by {
        if p@[i].tx.inputs[x] == p@[j].tx.inputs[y] {
            assert(txs_conflict(p@[i].tx, p@[j].tx));
        }
    }
}

/// Idempotent admission: a transaction ID already pooled is refused as a
/// duplicate, with exactly one pool entry kept, no mutation and no events,
/// whichever path submits it again.
pub proof fn lemma_admission_idempotent(
    s: Seq<EntryView>,
    tx: TxView,
    coins: Seq<CoinState>,
    stamp: u64,
    cfg: Config,
)
    requires
        contains_id(s, tx.id),
    ensures
        ({
            let o = admit_step(s, tx, coins, stamp, cfg);
            &&& o.result == InsertResult::RejectedDuplicate
            &&& o.pool == s
            &&& o.events == Seq::<StatusMessage>::empty()
        }),
{
}

/// Conflict-resolution determinism: two valid transactions `a` and `b` claim
/// a coin in common and `a` strictly outbids `b`; neither clashes with the
/// rest of the pool and the bounds leave room. Then, whichever arrives
/// first, the pool afterwards holds `a` and not `b`: arriving second, `b` is
/// refused outright; arriving first, `b` is squeezed out with a conflict
/// event.
pub proof fn lemma_conflict_determinism(
    s: Seq<EntryView>,
    a: TxView,
    b: TxView,
    coins_a: Seq<CoinState>,
    coins_b: Seq<CoinState>,
    stamp1: u64,
    stamp2: u64,
    cfg: Config,
)
    requires
        validate_spec(a, coins_a, cfg) is None,
        validate_spec(b, coins_b, cfg) is None,
        txs_conflict(a, b),
        a.gas_price > b.gas_price,
        a.id != b.id,
        !contains_id(s, a.id),
        !contains_id(s, b.id),
        forall|i: int|
            0 <= i < s.len() ==> !txs_conflict((#[trigger] s[i]).tx, a) && !txs_conflict(
                s[i].tx,
                b,
            ),
        stamp1 < stamp2,
        stamp2 < u64::MAX,
        s.len() + 1 <= cfg.max_pool_count,
        total_size(s) + a.size <= cfg.max_pool_weight,
        total_size(s) + b.size <= cfg.max_pool_weight,
    ensures
        ({
            let o1 = admit_step(s, a, coins_a, stamp1, cfg);
            let o2 = admit_step(o1.pool, b, coins_b, stamp2, cfg);
            &&& o1.result == InsertResult::Admitted
            &&& o2.result == InsertResult::RejectedConflict(b.id)
            &&& o2.pool == o1.pool
            &&& contains_id(o2.pool, a.id)
            &&& !contains_id(o2.pool, b.id)
        }),
        ({
            let p1 = admit_step(s, b, coins_b, stamp1, cfg);
            let p2 = admit_step(p1.pool, a, coins_a, stamp2, cfg);
            &&& p1.result == InsertResult::Admitted
            &&& p2.result == InsertResult::Admitted
            &&& contains_id(p2.pool, a.id)
            &&& !contains_id(p2.pool, b.id)
            &&& p2.events.contains(
                StatusMessage { tx_id: b.id, event: StatusEvent::SqueezedOut(DropReason::Conflict) },
            )
        }),
{
    let av1 = EntryView { tx: a, stamp: stamp1 };
    let av2 = EntryView { tx: a, stamp: stamp2 };
    let bv1 = EntryView { tx: b, stamp: stamp1 };
    // a first, then b.
    assert forall|i: int| 0 <= i < s.len() implies !txs_conflict((#[trigger] s[i]).tx, a) by {}
    lemma_admit_fresh(s, a, coins_a, stamp1, cfg);
    let o1 = admit_step(s, a, coins_a, stamp1, cfg);
    let pool1 = s.push(av1);
    assert(o1.pool == pool1);
    assert forall|i: int| 0 <= i < pool1.len() implies (#[trigger] pool1[i]).tx.id != b.id by {
        if i < s.len() {
            assert(pool1[i] == s[i]);
            if s[i].tx.id == b.id {
                assert(contains_id(s, b.id));
            }
        } else {
            assert(pool1[i] == av1);
        }
    }
    assert(!contains_id(pool1, b.id));
    assert(pool1[pool1.len() - 1].tx == a);
    lemma_conflict_symmetric(a, b);
    assert(txs_conflict(pool1[pool1.len() - 1].tx, b));
    assert(crate::pool::has_conflict(pool1, b));
    assert(!(b.gas_price > pool1[pool1.len() - 1].tx.gas_price));
    assert(!crate::pool::outbids_all(pool1, b));
    let o2 = admit_step(pool1, b, coins_b, stamp2, cfg);
    assert(o2.result == InsertResult::RejectedConflict(b.id));
    assert(o2.pool == pool1);
    assert(pool1[pool1.len() - 1].tx.id == a.id);
    assert(contains_id(pool1, a.id));
    // b first, then a.
    assert forall|i: int| 0 <= i < s.len() implies !txs_conflict((#[trigger] s[i]).tx, b) by {}
    lemma_admit_fresh(s, b, coins_b, stamp1, cfg);
    let p1 = admit_step(s, b, coins_b, stamp1, cfg);
    let pool2 = s.push(bv1);
    assert(p1.pool == pool2);
    assert forall|i: int| 0 <= i < pool2.len() implies (#[trigger] pool2[i]).tx.id != a.id by {
        if i < s.len() {
            assert(pool2[i] == s[i]);
            if s[i].tx.id == a.id {
                assert(contains_id(s, a.id));
            }
        } else {
            assert(pool2[i] == bv1);
        }
    }
    assert(!contains_id(pool2, a.id));
    // the incoming a outbids every conflicting entry, which is b alone
    assert forall|i: int|
        0 <= i < pool2.len() && txs_conflict((#[trigger] pool2[i]).tx, a) implies a.gas_price
        > pool2[i].tx.gas_price by {
        if i < s.len() {
            assert(pool2[i] == s[i]);
            assert(!txs_conflict(s[i].tx, a));
        } else {
            assert(pool2[i] == bv1);
        }
    }
    assert(crate::pool::outbids_all(pool2, a));
    // the survivors of a's admission are exactly s: b loses its coin
    let keepf = keeps_coins(a);
    lemma_conflict_symmetric(b, a);
    assert(pool2.drop_last() =~= s);
    assert(pool2.last() == bv1);
    assert(!keepf(bv1));
    assert(filter_keep(pool2, keepf) == filter_keep(s, keepf));
    assert forall|i: int| 0 <= i < s.len() implies keepf(#[trigger] s[i]) by {
        assert(!txs_conflict(s[i].tx, a));
    }
    lemma_filter_keep_all(s, keepf);
    assert(crate::pool::survivors(pool2, a) == s);
    // the conflict events of a's admission name b alone
    lemma_conflict_trace_empty(s, a);
    assert(conflict_event_trace(pool2, a) == conflict_event_trace(s, a).push(
        StatusMessage { tx_id: b.id, event: StatusEvent::SqueezedOut(DropReason::Conflict) },
    ));
    // room enough: no capacity eviction
    let tentative = s.push(av2);
    assert(tentative.drop_last() =~= s);
    assert(total_size(tentative) == total_size(s) + a.size);
    assert(!over_caps(tentative, cfg));
    assert(prune(tentative, cfg) == tentative);
    assert(tentative[tentative.len() - 1].tx.id == a.id);
    assert(contains_id(tentative, a.id));
    let p2 = admit_step(pool2, a, coins_a, stamp2, cfg);
    assert(p2.result == InsertResult::Admitted);
    assert(p2.pool == tentative);
    assert forall|i: int| 0 <= i < tentative.len() implies (#[trigger] tentative[i]).tx.id
        != b.id by {
        if i < s.len() {
            assert(tentative[i] == s[i]);
            if s[i].tx.id == b.id {
                assert(contains_id(s, b.id));
            }
        } else {
            assert(tentative[i] == av2);
        }
    }
    assert(!contains_id(tentative, b.id));
    assert(p2.events[0] == (StatusMessage {
        tx_id: b.id,
        event: StatusEvent::SqueezedOut(DropReason::Conflict),
    }));
    assert(p2.events.contains(
        StatusMessage { tx_id: b.id, event: StatusEvent::SqueezedOut(DropReason::Conflict) },
    ));
}

/// Capacity bound: a well-formed pool never exceeds its configured count and
/// weight bounds; enforcement is synchronous with admission, which always
/// returns a well-formed pool.
pub proof fn lemma_capacity_bound(p: PendingPool)
    requires
        p.wf(),
    ensures
        p@.len() <= p.cfg.max_pool_count,
        total_size(p@) <= p.cfg.max_pool_weight,
{
}

/// When an admission overfills the pool by exactly one entry and weight is
/// within bounds, exactly one entry is evicted: the lowest-priority one,
/// oldest first within a priority tie.
pub proof fn lemma_prune_single_eviction(s: Seq<EntryView>, cfg: Config)
    requires
        distinct_stamps(s),
        s.len() == cfg.max_pool_count + 1,
        total_size(s) <= cfg.max_pool_weight,
    ensures
        exists|v: int| is_victim(s, v) && prune(s, cfg) == s.remove(v),
{
    lemma_victim_exists(s);
    let v = choose|i: int| is_victim(s, i);
    assert(over_caps(s, cfg));
    lemma_total_size_remove(s, v);
    assert(s.remove(v).len() == cfg.max_pool_count);
    assert(total_size(s.remove(v)) <= cfg.max_pool_weight);
    assert(!over_caps(s.remove(v), cfg));
    assert(prune(s.remove(v), cfg) == s.remove(v));
    assert(prune(s, cfg) == s.remove(v));
    assert(is_victim(s, v) && prune(s, cfg) == s.remove(v));
}

/// Capacity eviction at admission: a fresh, valid, conflict-free transaction
/// admitted into a pool already holding the configured maximum count (with
/// weight to spare) leaves the pool at that count again, and the one entry
/// evicted is the lowest-priority one, oldest first within a priority tie;
/// the just-admitted entry is itself eligible.
pub proof fn lemma_capacity_eviction(
    s: Seq<EntryView>,
    tx: TxView,
    coins: Seq<CoinState>,
    stamp: u64,
    cfg: Config,
)
    requires
        validate_spec(tx, coins, cfg) is None,
        !contains_id(s, tx.id),
        forall|i: int| 0 <= i < s.len() ==> !txs_conflict((#[trigger] s[i]).tx, tx),
        distinct_stamps(s),
        stamps_below(s, stamp),
        stamp < u64::MAX,
        s.len() == cfg.max_pool_count,
        total_size(s) + tx.size <= cfg.max_pool_weight,
    ensures
        ({
            let o = admit_step(s, tx, coins, stamp, cfg);
            let tentative = s.push(EntryView { tx, stamp });
            exists|v: int|
                is_victim(tentative, v) && o.pool == tentative.remove(v) && o.pool.len()
                    == cfg.max_pool_count
        }),
{
    assert forall|i: int|
        0 <= i < s.len() && txs_conflict((#[trigger] s[i]).tx, tx) implies tx.gas_price
        > s[i].tx.gas_price by {
        assert(!txs_conflict(s[i].tx, tx));
    }
    let keepf = keeps_coins(tx);
    assert forall|i: int| 0 <= i < s.len() implies keepf(#[trigger] s[i]) by {
        assert(!txs_conflict(s[i].tx, tx));
    }
    lemma_filter_keep_all(s, keepf);
    let nv = EntryView { tx, stamp };
    let tentative = s.push(nv);
    assert(tentative.drop_last() =~= s);
    assert(total_size(tentative) == total_size(s) + tx.size);
    assert forall|i: int, j: int|
        0 <= i < tentative.len() && 0 <= j < tentative.len() && i != j implies (
    #[trigger] tentative[i]).stamp != (#[trigger] tentative[j]).stamp by {
        if i < s.len() && j < s.len() {
            assert(tentative[i] == s[i]);
            assert(tentative[j] == s[j]);
        } else if i == s.len() {
            assert(tentative[i] == nv);
            assert(tentative[j] == s[j]);
            assert(s[j].stamp < stamp);
        } else {
            assert(tentative[j] == nv);
            assert(tentative[i] == s[i]);
            assert(s[i].stamp < stamp);
        }
    }
    assert(tentative.len() == cfg.max_pool_count + 1);
    lemma_prune_single_eviction(tentative, cfg);
    let v = choose|v: int| is_victim(tentative, v) && prune(tentative, cfg) == tentative.remove(v);
    let o = admit_step(s, tx, coins, stamp, cfg);
    assert(o.pool == prune(tentative, cfg));
    assert(is_victim(tentative, v) && o.pool == tentative.remove(v) && o.pool.len()
        == cfg.max_pool_count);
}

/// Inclusion pruning: an entry whose transaction an imported block includes
/// is no longer in the pool once the block is applied.
pub proof fn lemma_inclusion_prunes(s: Seq<EntryView>, b: BlockView, id: u64)
    requires
        id_in_block(b, id),
    ensures
        !contains_id(block_apply(s, b), id),
{
    let r1 = filter_keep(s, not_included(b));
    let r2 = block_apply(s, b);
    lemma_filter_keep_membership(s, not_included(b));
    lemma_filter_keep_membership(r1, spared_by_block(b));
    if contains_id(r2, id) {
        let w = choose|w: int| 0 <= w < r2.len() && r2[w].tx.id == id;
        assert(r1.contains(r2[w]));
        let w2 = choose|w2: int| 0 <= w2 < r1.len() && r1[w2] == r2[w];
        assert((not_included(b))(r1[w2]));
        assert(false);
    }
}

} // verus!
