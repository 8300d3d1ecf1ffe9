use vstd::prelude::*;
use crate::pool::{
    filter_keep, txs_conflict, EntryView, PendingPool, not_named, shares_coin,
};
use crate::types::{
    BlockView, DropReason, ImportFault, SealedBlock, StatusEvent, StatusMessage, Transaction,
    TxView,
};

verus! {

/// Some transaction of the block carries the given ID.
pub open spec fn id_in_block(b: BlockView, id: u64) -> bool {
    exists|i: int| 0 <= i < b.txs.len() && (#[trigger] b.txs[i]).id == id
}

/// Some transaction of the block spends a coin that `tx` also claims.
pub open spec fn conflicts_block(b: BlockView, tx: TxView) -> bool {
    exists|i: int| 0 <= i < b.txs.len() && txs_conflict(#[trigger] b.txs[i], tx)
}

/// The entries the block does not include.
pub open spec fn not_included(b: BlockView) -> spec_fn(EntryView) -> bool {
    |e: EntryView| !id_in_block(b, e.tx.id)
}

/// The entries that claim no coin an included transaction spent.
pub open spec fn spared_by_block(b: BlockView) -> spec_fn(EntryView) -> bool {
    |e: EntryView| !conflicts_block(b, e.tx)
}

/// The pool after one imported block: included entries leave first, then the
/// remaining entries whose coin an included transaction spent.
pub open spec fn block_apply(s: Seq<EntryView>, b: BlockView) -> Seq<EntryView> {
    filter_keep(filter_keep(s, not_included(b)), spared_by_block(b))
}

/// `Included` events for the entries the block includes, in pool order.
pub open spec fn included_event_trace(s: Seq<EntryView>, b: BlockView) -> Seq<StatusMessage>
    decreases s.len(),
{
    if s.len() == 0 {
        Seq::empty()
    } else if id_in_block(b, s.last().tx.id) {
        included_event_trace(s.drop_last(), b).push(
            StatusMessage { tx_id: s.last().tx.id, event: StatusEvent::Included(b.height) },
        )
    } else {
        included_event_trace(s.drop_last(), b)
    }
}

/// `SqueezedOut(BlockConflict)` events for the entries the block implicitly
/// resolves, in pool order.
pub open spec fn block_conflict_trace(s: Seq<EntryView>, b: BlockView) -> Seq<StatusMessage>
    decreases s.len(),
{
    if s.len() == 0 {
        Seq::empty()
    } else if conflicts_block(b, s.last().tx) {
        block_conflict_trace(s.drop_last(), b).push(
            StatusMessage {
                tx_id: s.last().tx.id,
                event: StatusEvent::SqueezedOut(DropReason::BlockConflict),
            },
        )
    } else {
        block_conflict_trace(s.drop_last(), b)
    }
}

/// All events one imported block emits, in emission order.
pub open spec fn block_event_trace(s: Seq<EntryView>, b: BlockView) -> Seq<StatusMessage> {
    included_event_trace(s, b) + block_conflict_trace(filter_keep(s, not_included(b)), b)
}

/// The given ID belongs to an entry of `s` that the block's coins evict.
pub open spec fn id_is_conflicting(s: Seq<EntryView>, b: BlockView, id: u64) -> bool {
    exists|w: int|
        0 <= w < s.len() && (#[trigger] s[w]).tx.id == id && conflicts_block(b, s[w].tx)
}

/// Two element-wise agreeing predicates filter a sequence alike.
pub proof fn lemma_filter_keep_agree(
    s: Seq<EntryView>,
    k1: spec_fn(EntryView) -> bool,
    k2: spec_fn(EntryView) -> bool,
)
    requires
        forall|i: int| 0 <= i < s.len() ==> k1(#[trigger] s[i]) == k2(s[i]),
    ensures
        filter_keep(s, k1) == filter_keep(s, k2),
    decreases s.len(),
{
    if s.len() > 0 {
        let sd = s.drop_last();
        assert forall|i: int| 0 <= i < sd.len() implies k1(#[trigger] sd[i]) == k2(sd[i]) by {
            assert(sd[i] == s[i]);
        }
        lemma_filter_keep_agree(sd, k1, k2);
        assert(s.last() == s[s.len() - 1]);
    }
}

/// Whether the block includes a transaction with the given ID.
pub fn block_names(block: &SealedBlock, id: u64) -> (r: bool)
    ensures
        r == id_in_block(block@, id),
{
    let n = block.txs.len();
    let mut i: usize = 0;
    while i < n
        invariant
            i <= n,
            n == block.txs@.len(),
            forall|k: int| 0 <= k < i ==> (#[trigger] block@.txs[k]).id != id,
        decreases n - i,
    {
        if block.txs[i].id == id {
            proof {
                assert(block@.txs[i as int].id == id);
            }
            return true;
        }
        i += 1;
    }
    false
}

/// Whether the block spends a coin that `tx` claims.
pub fn block_conflicts(block: &SealedBlock, tx: &Transaction) -> (r: bool)
    ensures
        r == conflicts_block(block@, tx@),
{
    let n = block.txs.len();
    let mut i: usize = 0;
    while i < n
        invariant
            i <= n,
            n == block.txs@.len(),
            forall|k: int| 0 <= k < i ==> !txs_conflict(#[trigger] block@.txs[k], tx@),
        decreases n - i,
    {
        if shares_coin(&block.txs[i], tx) {
            proof {
                assert(txs_conflict(block@.txs[i as int], tx@));
            }
            return true;
        }
        i += 1;
    }
    false
}

/// Consumes the strictly ordered sequence of sealed blocks and reconciles
/// the pool after each one, as a single atomic step per block.
pub struct ImportReactor {
    pub last_height: Option<u64>,
}

impl ImportReactor {
    /// A reactor that has seen no block yet.
    pub fn new() -> (r: Self)
        ensures
            r.last_height is None,
    {
        ImportReactor { last_height: None }
    }

    /// Whether a block at `height` may be applied next: heights must strictly
    /// increase.
    pub open spec fn accepts(&self, height: u64) -> bool {
        match self.last_height {
            None => true,
            Some(h) => height > h,
        }
    }

    /// Applies one sealed block to the pool: every included transaction
    /// present leaves with `Included(height)`; then every remaining entry
    /// claiming a coin an included transaction spent leaves with
    /// `SqueezedOut(BlockConflict)`; included transactions never admitted
    /// locally require no action. A height regression or duplicate is a
    /// fatal inconsistency: nothing changes and the caller must stop.
    #[verifier::loop_isolation(false)]
    pub fn process_block(&mut self, pool: &mut PendingPool, block: &SealedBlock) -> (r: Result<
        Vec<StatusMessage>,
        ImportFault,
    >)
        requires
            old(pool).wf(),
        ensures
            final(pool).wf(),
            final(pool).cfg == old(pool).cfg,
            final(pool).next_stamp == old(pool).next_stamp,
            !old(self).accepts(block.height) ==> r == Result::<Vec<StatusMessage>, ImportFault>::Err(ImportFault::HeightRegression)
                && *final(pool) == *old(pool) && *final(self) == *old(self),
            old(self).accepts(block.height) ==> {
                &&& r is Ok
                &&& final(self).last_height == Some(block.height)
                &&& final(pool)@ == block_apply(old(pool)@, block@)
                &&& (r->Ok_0)@ == block_event_trace(old(pool)@, block@)
            },
    {
        match self.last_height {
            Some(h) => {
                if block.height <= h {
                    return Err(ImportFault::HeightRegression);
                }
            },
            None => {},
        }
        let ghost s0 = pool@;
        let ghost b = block@;
        let n = pool.entries.len();
        let mut included_ids: Vec<u64> = Vec::new();
        let mut events: Vec<StatusMessage> = Vec::new();
        let mut i: usize = 0;
        while i < n
            invariant
                i <= n,
                events@ == included_event_trace(s0.take(i as int), b),
                forall|q: int|
                    0 <= q < included_ids@.len() ==> id_in_block(b, #[trigger] included_ids@[q]),
                forall|w: int|
                    0 <= w < i && id_in_block(b, (#[trigger] s0[w]).tx.id) ==> included_ids@
                        .contains(s0[w].tx.id),
            decreases n - i,
        {
            proof {
                assert(s0.take(i as int + 1).drop_last() =~= s0.take(i as int));
                assert(s0.take(i as int + 1).last() == s0[i as int]);
            }
            let tid = pool.entries[i].tx.id;
            proof {
                assert(tid == s0[i as int].tx.id);
            }
            let ghost ids_pre = included_ids@;
            if block_names(block, tid) {
                included_ids.push(tid);
                events.push(
                    StatusMessage { tx_id: tid, event: StatusEvent::Included(block.height) },
                );
                proof {
                    assert forall|w: int|
                        0 <= w < i + 1 && id_in_block(
                            b,
                            (#[trigger] s0[w]).tx.id,
                        ) implies included_ids@.contains(s0[w].tx.id) by {
                        if w < i {
                            let q = choose|q: int|
                                0 <= q < ids_pre.len() && ids_pre[q] == s0[w].tx.id;
                            assert(included_ids@[q] == s0[w].tx.id);
                        } else {
                            assert(included_ids@[included_ids@.len() - 1] == tid);
                        }
                    }
                }
            } else {
                proof {
                    assert forall|w: int|
                        0 <= w < i + 1 && id_in_block(
                            b,
                            (#[trigger] s0[w]).tx.id,
                        ) implies included_ids@.contains(s0[w].tx.id) by {
                        assert(w < i);
                    }
                }
            }
            i += 1;
        }
        proof {
            assert(s0.take(n as int) =~= s0);
        }
        pool.remove(&included_ids);
        proof {
            assert forall|w: int| 0 <= w < s0.len() implies (not_named(included_ids@))(
                #[trigger] s0[w],
            ) == (not_included(b))(s0[w]) by {
                if included_ids@.contains(s0[w].tx.id) {
                    let q = choose|q: int|
                        0 <= q < included_ids@.len() && included_ids@[q] == s0[w].tx.id;
                    assert(id_in_block(b, included_ids@[q]));
                }
            }
            lemma_filter_keep_agree(s0, not_named(included_ids@), not_included(b));
        }
        let ghost s1 = pool@;
        let n2 = pool.entries.len();
        let mut conflict_ids: Vec<u64> = Vec::new();
        let mut i2: usize = 0;
        while i2 < n2
            invariant
                i2 <= n2,
                events@ == included_event_trace(s0, b) + block_conflict_trace(
                    s1.take(i2 as int),
                    b,
                ),
                forall|q: int|
                    0 <= q < conflict_ids@.len() ==> id_is_conflicting(
                        s1,
                        b,
                        #[trigger] conflict_ids@[q],
                    ),
                forall|w: int|
                    0 <= w < i2 && conflicts_block(b, (#[trigger] s1[w]).tx) ==> conflict_ids@
                        .contains(s1[w].tx.id),
            decreases n2 - i2,
        {
            proof {
                assert(s1.take(i2 as int + 1).drop_last() =~= s1.take(i2 as int));
                assert(s1.take(i2 as int + 1).last() == s1[i2 as int]);
            }
            let e_tid = pool.entries[i2].tx.id;
            proof {
                assert(e_tid == s1[i2 as int].tx.id);
            }
            let ghost ids_pre = conflict_ids@;
            if block_conflicts(block, &pool.entries[i2].tx) {
                conflict_ids.push(e_tid);
                events.push(
                    StatusMessage {
                        tx_id: e_tid,
                        event: StatusEvent::SqueezedOut(DropReason::BlockConflict),
                    },
                );
                proof {
                    assert(conflicts_block(b, s1[i2 as int].tx));
                    assert forall|q: int| 0 <= q < conflict_ids@.len() implies id_is_conflicting(
                        s1,
                        b,
                        #[trigger] conflict_ids@[q],
                    ) by {
                        if q < ids_pre.len() {
                            assert(conflict_ids@[q] == ids_pre[q]);
                            assert(id_is_conflicting(s1, b, ids_pre[q]));
                        } else {
                            assert(conflict_ids@[q] == e_tid);
                            assert(0 <= (i2 as int) < s1.len() && s1[i2 as int].tx.id == e_tid
                                && conflicts_block(b, s1[i2 as int].tx));
                        }
                    }
                    assert forall|w: int|
                        0 <= w < i2 + 1 && conflicts_block(
                            b,
                            (#[trigger] s1[w]).tx,
                        ) implies conflict_ids@.contains(s1[w].tx.id) by {
                        if w < i2 {
                            let q = choose|q: int|
                                0 <= q < ids_pre.len() && ids_pre[q] == s1[w].tx.id;
                            assert(conflict_ids@[q] == s1[w].tx.id);
                        } else {
                            assert(conflict_ids@[conflict_ids@.len() - 1] == e_tid);
                        }
                    }
                }
            } else {
                proof {
                    assert forall|w: int|
                        0 <= w < i2 + 1 && conflicts_block(
                            b,
                            (#[trigger] s1[w]).tx,
                        ) implies conflict_ids@.contains(s1[w].tx.id) by {
                        assert(w < i2);
                    }
                }
            }
            i2 += 1;
        }
        proof {
            assert(s1.take(n2 as int) =~= s1);
        }
        pool.remove(&conflict_ids);
        proof {
            assert forall|w: int| 0 <= w < s1.len() implies (not_named(conflict_ids@))(
                #[trigger] s1[w],
            ) == (spared_by_block(b))(s1[w]) by {
                if conflict_ids@.contains(s1[w].tx.id) {
                    let q = choose|q: int|
                        0 <= q < conflict_ids@.len() && conflict_ids@[q] == s1[w].tx.id;
                    assert(id_is_conflicting(s1, b, conflict_ids@[q]));
                    let w2 = choose|w2: int|
                        0 <= w2 < s1.len() && (#[trigger] s1[w2]).tx.id == conflict_ids@[q]
                            && conflicts_block(b, s1[w2].tx);
                    if w2 != w {
                        assert(s1[w2].tx.id != s1[w].tx.id);
                    }
                }
            }
            lemma_filter_keep_agree(s1, not_named(conflict_ids@), spared_by_block(b));
        }
        self.last_height = Some(block.height);
        Ok(events)
    }
}

} // verus!
