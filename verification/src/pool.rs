use vstd::prelude::*;
use crate::config::Config;
use crate::types::{
    CoinState, DropReason, InsertResult, StatusEvent, StatusMessage, Transaction, TxView,
};
use crate::validator::{validate, validate_spec};

verus! {

/// A pool entry: an admitted transaction plus its admission stamp. Stamps
/// grow with each admission, so a smaller stamp means an older entry.
pub struct PendingEntry {
    pub tx: Transaction,
    pub stamp: u64,
}

/// The mathematical image of a [`PendingEntry`].
#[verifier::ext_equal]
pub ghost struct EntryView {
    pub tx: TxView,
    pub stamp: u64,
}

impl View for PendingEntry {
    type V = EntryView;

    open spec fn view(&self) -> EntryView {
        EntryView { tx: self.tx@, stamp: self.stamp }
    }
}

impl Clone for PendingEntry {
    fn clone(&self) -> (r: Self)
        ensures
            r@ == self@,
    {
        PendingEntry { tx: self.tx.clone(), stamp: self.stamp }
    }
}

/// Two transactions conflict when they claim a coin in common.
pub open spec fn txs_conflict(a: TxView, b: TxView) -> bool {
    exists|i: int, j: int|
        0 <= i < a.inputs.len() && 0 <= j < b.inputs.len() && a.inputs[i] == b.inputs[j]
}

pub proof fn lemma_conflict_symmetric(a: TxView, b: TxView)
    ensures
        txs_conflict(a, b) == txs_conflict(b, a),
{
    if txs_conflict(a, b) {
        let (i, j) = choose|i: int, j: int|
            0 <= i < a.inputs.len() && 0 <= j < b.inputs.len() && a.inputs[i] == b.inputs[j];
        assert(b.inputs[j] == a.inputs[i]);
    }
    if txs_conflict(b, a) {
        let (i, j) = choose|i: int, j: int|
            0 <= i < b.inputs.len() && 0 <= j < a.inputs.len() && b.inputs[i] == a.inputs[j];
        assert(a.inputs[j] == b.inputs[i]);
    }
}

/// Some entry carries the given transaction ID.
pub open spec fn contains_id(s: Seq<EntryView>, id: u64) -> bool {
    exists|i: int| 0 <= i < s.len() && s[i].tx.id == id
}

/// The incoming transaction strictly outbids every conflicting entry.
pub open spec fn outbids_all(s: Seq<EntryView>, tx: TxView) -> bool {
    forall|i: int|
        0 <= i < s.len() && txs_conflict(#[trigger] s[i].tx, tx) ==> tx.gas_price
            > s[i].tx.gas_price
}

/// Some entry conflicts with the incoming transaction.
pub open spec fn has_conflict(s: Seq<EntryView>, tx: TxView) -> bool {
    exists|i: int| 0 <= i < s.len() && txs_conflict(#[trigger] s[i].tx, tx)
}

/// The entries of `s`, in order, that satisfy `keep`.
pub open spec fn filter_keep(s: Seq<EntryView>, keep: spec_fn(EntryView) -> bool) -> Seq<
    EntryView,
>
    decreases s.len(),
{
    if s.len() == 0 {
        Seq::empty()
    } else if keep(s.last()) {
        filter_keep(s.drop_last(), keep).push(s.last())
    } else {
        filter_keep(s.drop_last(), keep)
    }
}

/// The summed size of the entries.
pub open spec fn total_size(s: Seq<EntryView>) -> int
    decreases s.len(),
{
    if s.len() == 0 {
        0
    } else {
        total_size(s.drop_last()) + s.last().tx.size
    }
}

pub proof fn lemma_total_size_nonneg(s: Seq<EntryView>)
    ensures
        total_size(s) >= 0,
    decreases s.len(),
{
    if s.len() > 0 {
        lemma_total_size_nonneg(s.drop_last());
    }
}

pub proof fn lemma_total_size_take_le(s: Seq<EntryView>, i: int)
    requires
        0 <= i <= s.len(),
    ensures
        total_size(s.take(i)) <= total_size(s),
    decreases s.len(),
{
    if i == s.len() {
        assert(s.take(i) =~= s);
    } else {
        assert(s.drop_last().take(i) =~= s.take(i));
        lemma_total_size_take_le(s.drop_last(), i);
    }
}

pub proof fn lemma_total_size_remove(s: Seq<EntryView>, i: int)
    requires
        0 <= i < s.len(),
    ensures
        total_size(s.remove(i)) == total_size(s) - s[i].tx.size,
    decreases s.len(),
{
    if i == s.len() - 1 {
        assert(s.remove(i) =~= s.drop_last());
    } else {
        assert(s.remove(i).drop_last() =~= s.drop_last().remove(i));
        assert(s.remove(i).last() == s.last());
        lemma_total_size_remove(s.drop_last(), i);
    }
}

pub proof fn lemma_filter_keep_size(s: Seq<EntryView>, keep: spec_fn(EntryView) -> bool)
    ensures
        total_size(filter_keep(s, keep)) <= total_size(s),
        filter_keep(s, keep).len() <= s.len(),
    decreases s.len(),
{
    if s.len() > 0 {
        lemma_filter_keep_size(s.drop_last(), keep);
        if keep(s.last()) {
            let f = filter_keep(s.drop_last(), keep);
            assert(f.push(s.last()).drop_last() =~= f);
        } else {
            lemma_total_size_nonneg(s.drop_last());
            assert(total_size(s) == total_size(s.drop_last()) + s.last().tx.size);
        }
    }
}

/// Every filtered entry satisfies `keep` and stems from the source sequence.
pub proof fn lemma_filter_keep_membership(s: Seq<EntryView>, keep: spec_fn(EntryView) -> bool)
    ensures
        forall|k: int|
            0 <= k < filter_keep(s, keep).len() ==> keep(#[trigger] filter_keep(s, keep)[k])
                && s.contains(filter_keep(s, keep)[k]),
    decreases s.len(),
{
    if s.len() > 0 {
        let sd = s.drop_last();
        let f = filter_keep(sd, keep);
        lemma_filter_keep_membership(sd, keep);
        assert forall|k: int|
            0 <= k < filter_keep(s, keep).len() implies keep(
            #[trigger] filter_keep(s, keep)[k],
        ) && s.contains(filter_keep(s, keep)[k]) by {
            if k < f.len() {
                assert(filter_keep(s, keep)[k] == f[k]);
                let w = choose|w: int| 0 <= w < sd.len() && sd[w] == f[k];
                assert(s[w] == f[k]);
            } else {
                assert(keep(s.last()));
                assert(filter_keep(s, keep)[k] == s.last());
                assert(s[s.len() - 1] == s.last());
            }
        }
    }
}

/// A pairwise property of the source sequence carries over to the filtered one.
pub proof fn lemma_filter_keep_pairwise(
    s: Seq<EntryView>,
    keep: spec_fn(EntryView) -> bool,
    p: spec_fn(EntryView, EntryView) -> bool,
)
    requires
        forall|i: int, j: int|
            0 <= i < s.len() && 0 <= j < s.len() && i != j ==> p(#[trigger] s[i], #[trigger] s[j]),
    ensures
        forall|i: int, j: int|
            0 <= i < filter_keep(s, keep).len() && 0 <= j < filter_keep(s, keep).len() && i != j
                ==> p(#[trigger] filter_keep(s, keep)[i], #[trigger] filter_keep(s, keep)[j]),
    decreases s.len(),
{
    if s.len() > 0 {
        let sd = s.drop_last();
        let f = filter_keep(sd, keep);
        assert forall|i: int, j: int|
            0 <= i < sd.len() && 0 <= j < sd.len() && i != j implies p(
            #[trigger] sd[i],
            #[trigger] sd[j],
        ) by {
            assert(sd[i] == s[i]);
            assert(sd[j] == s[j]);
        }
        lemma_filter_keep_pairwise(sd, keep, p);
        lemma_filter_keep_membership(sd, keep);
        let r = filter_keep(s, keep);
        if keep(s.last()) {
            assert forall|i: int, j: int|
                0 <= i < r.len() && 0 <= j < r.len() && i != j implies p(
                #[trigger] r[i],
                #[trigger] r[j],
            ) by {
                if i < f.len() && j < f.len() {
                    assert(r[i] == f[i]);
                    assert(r[j] == f[j]);
                } else if i == f.len() {
                    assert(r[i] == s.last());
                    assert(r[j] == f[j]);
                    let w = choose|w: int| 0 <= w < sd.len() && sd[w] == f[j];
                    assert(s[w] == f[j]);
                    assert(p(s[s.len() - 1], s[w]));
                } else {
                    assert(j == f.len());
                    assert(r[j] == s.last());
                    assert(r[i] == f[i]);
                    let w = choose|w: int| 0 <= w < sd.len() && sd[w] == f[i];
                    assert(s[w] == f[i]);
                    assert(p(s[w], s[s.len() - 1]));
                }
            }
        }
    }
}

/// `a` is evicted before `b`: strictly lower priority, or equal priority and
/// older (the oldest of a priority tie loses).
pub open spec fn evicted_before(a: EntryView, b: EntryView) -> bool {
    a.tx.gas_price < b.tx.gas_price || (a.tx.gas_price == b.tx.gas_price && a.stamp < b.stamp)
}

/// Index `i` holds the entry that capacity eviction removes next.
pub open spec fn is_victim(s: Seq<EntryView>, i: int) -> bool {
    0 <= i < s.len() && forall|j: int|
        0 <= j < s.len() && j != i ==> evicted_before(s[i], #[trigger] s[j])
}

/// No two entries carry the same stamp.
pub open spec fn distinct_stamps(s: Seq<EntryView>) -> bool {
    forall|i: int, j: int|
        0 <= i < s.len() && 0 <= j < s.len() && i != j ==> (#[trigger] s[i]).stamp
            != (#[trigger] s[j]).stamp
}

pub proof fn lemma_victim_exists(s: Seq<EntryView>)
    requires
        s.len() > 0,
        distinct_stamps(s),
    ensures
        exists|i: int| is_victim(s, i),
    decreases s.len(),
{
    if s.len() == 1 {
        assert(is_victim(s, 0));
    } else {
        let sd = s.drop_last();
        assert forall|i: int, j: int|
            0 <= i < sd.len() && 0 <= j < sd.len() && i != j implies (#[trigger] sd[i]).stamp
            != (#[trigger] sd[j]).stamp by {
            assert(sd[i] == s[i]);
            assert(sd[j] == s[j]);
        }
        lemma_victim_exists(sd);
        let v = choose|i: int| is_victim(sd, i);
        assert(sd[v] == s[v]);
        let last = s[s.len() - 1];
        if evicted_before(s[v], last) {
            assert forall|j: int| 0 <= j < s.len() && j != v implies evicted_before(
                s[v],
                #[trigger] s[j],
            ) by {
                if j < s.len() - 1 {
                    assert(sd[j] == s[j]);
                    assert(evicted_before(sd[v], sd[j]));
                }
            }
            assert(is_victim(s, v));
        } else {
            assert(s[v].stamp != last.stamp);
            assert(evicted_before(last, s[v]));
            assert forall|j: int| 0 <= j < s.len() && j != s.len() - 1 implies evicted_before(
                last,
                #[trigger] s[j],
            ) by {
                if j != v {
                    assert(sd[j] == s[j]);
                    assert(evicted_before(sd[v], sd[j]));
                }
            }
            assert(is_victim(s, s.len() - 1));
        }
    }
}

pub proof fn lemma_victim_unique(s: Seq<EntryView>, i: int, j: int)
    requires
        is_victim(s, i),
        is_victim(s, j),
    ensures
        i == j,
{
    if i != j {
        assert(evicted_before(s[i], s[j]));
        assert(evicted_before(s[j], s[i]));
    }
}

/// The pool exceeds its configured bounds.
pub open spec fn over_caps(s: Seq<EntryView>, cfg: Config) -> bool {
    s.len() > cfg.max_pool_count || total_size(s) > cfg.max_pool_weight
}

/// Repeated capacity eviction: while the pool exceeds its bounds, the entry
/// with the lowest priority (oldest first within a priority tie) leaves.
pub open spec fn prune(s: Seq<EntryView>, cfg: Config) -> Seq<EntryView>
    decreases s.len(),
{
    if over_caps(s, cfg) && (exists|i: int| is_victim(s, i)) {
        prune(s.remove(choose|i: int| is_victim(s, i)), cfg)
    } else {
        s
    }
}

/// The squeezed-out events that capacity eviction emits, in eviction order.
pub open spec fn capacity_event_trace(s: Seq<EntryView>, cfg: Config) -> Seq<StatusMessage>
    decreases s.len(),
{
    if over_caps(s, cfg) && (exists|i: int| is_victim(s, i)) {
        let v = choose|i: int| is_victim(s, i);
        seq![
            StatusMessage {
                tx_id: s[v].tx.id,
                event: StatusEvent::SqueezedOut(DropReason::Capacity),
            },
        ] + capacity_event_trace(s.remove(v), cfg)
    } else {
        Seq::empty()
    }
}

/// The entries that keep their coins against an incoming `tx`.
pub open spec fn keeps_coins(tx: TxView) -> spec_fn(EntryView) -> bool {
    |e: EntryView| !txs_conflict(e.tx, tx)
}

/// The entries that keep their coins when `tx` is admitted.
pub open spec fn survivors(s: Seq<EntryView>, tx: TxView) -> Seq<EntryView> {
    filter_keep(s, keeps_coins(tx))
}

/// The squeezed-out events for the entries that lose their coins to `tx`,
/// in pool order.
pub open spec fn conflict_event_trace(s: Seq<EntryView>, tx: TxView) -> Seq<StatusMessage>
    decreases s.len(),
{
    if s.len() == 0 {
        Seq::empty()
    } else if txs_conflict(s.last().tx, tx) {
        conflict_event_trace(s.drop_last(), tx).push(
            StatusMessage {
                tx_id: s.last().tx.id,
                event: StatusEvent::SqueezedOut(DropReason::Conflict),
            },
        )
    } else {
        conflict_event_trace(s.drop_last(), tx)
    }
}

/// The outcome of one admission attempt against a pool state.
#[verifier::ext_equal]
pub ghost struct AdmitOutcome {
    pub result: InsertResult,
    pub pool: Seq<EntryView>,
    pub events: Seq<StatusMessage>,
    pub stamp_used: bool,
}

/// One admission attempt, as a function of the pool state: duplicate IDs are
/// refused without effect; the validator's verdict is final; an incoming
/// transaction that fails to strictly outbid every conflicting entry is
/// refused without effect; otherwise the conflicting entries leave, the
/// transaction enters, and capacity eviction restores the bounds: the new
/// entry itself eligible. A pool whose admission stamp is exhausted refuses
/// every new transaction as a capacity rejection.
pub open spec fn admit_step(
    s: Seq<EntryView>,
    tx: TxView,
    coins: Seq<CoinState>,
    stamp: u64,
    cfg: Config,
) -> AdmitOutcome {
    if contains_id(s, tx.id) {
        AdmitOutcome {
            result: InsertResult::RejectedDuplicate,
            pool: s,
            events: Seq::empty(),
            stamp_used: false,
        }
    } else if validate_spec(tx, coins, cfg) is Some {
        AdmitOutcome {
            result: InsertResult::RejectedValidation(validate_spec(tx, coins, cfg)->Some_0),
            pool: s,
            events: Seq::empty(),
            stamp_used: false,
        }
    } else if stamp == u64::MAX {
        AdmitOutcome {
            result: InsertResult::RejectedCapacity,
            pool: s,
            events: Seq::empty(),
            stamp_used: false,
        }
    } else if has_conflict(s, tx) && !outbids_all(s, tx) {
        AdmitOutcome {
            result: InsertResult::RejectedConflict(tx.id),
            pool: s,
            events: Seq::empty(),
            stamp_used: false,
        }
    } else {
        let tentative = survivors(s, tx).push(EntryView { tx, stamp });
        let pool2 = prune(tentative, cfg);
        AdmitOutcome {
            result: if contains_id(pool2, tx.id) {
                InsertResult::Admitted
            } else {
                InsertResult::RejectedCapacity
            },
            pool: pool2,
            events: conflict_event_trace(s, tx).push(
                StatusMessage { tx_id: tx.id, event: StatusEvent::Submitted },
            ) + capacity_event_trace(tentative, cfg),
            stamp_used: true,
        }
    }
}

/// `a` is selected before `b`: strictly higher priority, or equal priority
/// and older.
pub open spec fn picked_before(a: EntryView, b: EntryView) -> bool {
    a.tx.gas_price > b.tx.gas_price || (a.tx.gas_price == b.tx.gas_price && a.stamp < b.stamp)
}

/// Index `i` holds the entry that block-building selection takes next.
pub open spec fn is_pick(s: Seq<EntryView>, i: int) -> bool {
    0 <= i < s.len() && forall|j: int|
        0 <= j < s.len() && j != i ==> picked_before(s[i], #[trigger] s[j])
}

pub proof fn lemma_pick_unique(s: Seq<EntryView>, i: int, j: int)
    requires
        is_pick(s, i),
        is_pick(s, j),
    ensures
        i == j,
{
    if i != j {
        assert(picked_before(s[i], s[j]));
        assert(picked_before(s[j], s[i]));
    }
}

/// Greedy block-building order: repeatedly the highest-priority entry,
/// oldest first within a priority tie, as long as the weight budget admits
/// the next one.
pub open spec fn selection(s: Seq<EntryView>, budget: int) -> Seq<TxView>
    decreases s.len(),
{
    if s.len() == 0 || !(exists|i: int| is_pick(s, i)) {
        Seq::empty()
    } else {
        let i = choose|i: int| is_pick(s, i);
        if s[i].tx.size <= budget {
            seq![s[i].tx] + selection(s.remove(i), budget - s[i].tx.size)
        } else {
            Seq::empty()
        }
    }
}

/// The entries whose ID is not among `ids`.
pub open spec fn not_named(ids: Seq<u64>) -> spec_fn(EntryView) -> bool {
    |e: EntryView| !ids.contains(e.tx.id)
}

/// The pool after an unconditional removal of the given transaction IDs.
pub open spec fn remove_ids(s: Seq<EntryView>, ids: Seq<u64>) -> Seq<EntryView> {
    filter_keep(s, not_named(ids))
}

/// The entry views of a sequence of entries.
pub open spec fn views_of(s: Seq<PendingEntry>) -> Seq<EntryView> {
    s.map_values(|e: PendingEntry| e@)
}

/// Removing an entry commutes with taking entry views.
pub proof fn lemma_views_remove(s: Seq<PendingEntry>, i: int)
    requires
        0 <= i < s.len(),
    ensures
        views_of(s.remove(i)) == views_of(s).remove(i),
{
    s.remove_ensures(i);
    views_of(s).remove_ensures(i);
    assert(views_of(s.remove(i)) =~= views_of(s).remove(i));
}

/// A pairwise property survives the removal of one entry.
pub proof fn lemma_remove_pairwise(
    s: Seq<EntryView>,
    i: int,
    p: spec_fn(EntryView, EntryView) -> bool,
)
    requires
        0 <= i < s.len(),
        forall|a: int, b: int|
            0 <= a < s.len() && 0 <= b < s.len() && a != b ==> p(#[trigger] s[a], #[trigger] s[b]),
    ensures
        forall|a: int, b: int|
            0 <= a < s.remove(i).len() && 0 <= b < s.remove(i).len() && a != b ==> p(
                #[trigger] s.remove(i)[a],
                #[trigger] s.remove(i)[b],
            ),
{
    s.remove_ensures(i);
    assert forall|a: int, b: int|
        0 <= a < s.remove(i).len() && 0 <= b < s.remove(i).len() && a != b implies p(
        #[trigger] s.remove(i)[a],
        #[trigger] s.remove(i)[b],
    ) by {
        let sa: int = if a < i { a } else { a + 1 };
        let sb: int = if b < i { b } else { b + 1 };
        assert(s.remove(i)[a] == s[sa]);
        assert(s.remove(i)[b] == s[sb]);
        assert(p(s[sa], s[sb]));
    }
}

/// No two entries share a transaction ID.
pub open spec fn unique_ids(s: Seq<EntryView>) -> bool {
    forall|i: int, j: int|
        0 <= i < s.len() && 0 <= j < s.len() && i != j ==> (#[trigger] s[i]).tx.id
            != (#[trigger] s[j]).tx.id
}

/// No coin is claimed by two entries at once.
pub open spec fn no_coin_conflicts(s: Seq<EntryView>) -> bool {
    forall|i: int, j: int|
        0 <= i < s.len() && 0 <= j < s.len() && i != j ==> !txs_conflict(
            (#[trigger] s[i]).tx,
            (#[trigger] s[j]).tx,
        )
}

/// Every stamp lies below the given bound.
pub open spec fn stamps_below(s: Seq<EntryView>, bound: u64) -> bool {
    forall|i: int| 0 <= i < s.len() ==> (#[trigger] s[i]).stamp < bound
}

/// Whether two transactions claim a coin in common.
pub fn shares_coin(a: &Transaction, b: &Transaction) -> (r: bool)
    ensures
        r == txs_conflict(a@, b@),
{
    let na = a.inputs.len();
    let nb = b.inputs.len();
    let mut i: usize = 0;
    while i < na
        invariant
            na == a.inputs@.len(),
            nb == b.inputs@.len(),
            i <= na,
            forall|p: int, q: int| 0 <= p < i && 0 <= q < nb ==> a.inputs@[p] != b.inputs@[q],
        decreases na - i,
    {
        let mut j: usize = 0;
        while j < nb
            invariant
                na == a.inputs@.len(),
                nb == b.inputs@.len(),
                i < na,
                j <= nb,
                forall|q: int| 0 <= q < j ==> a.inputs@[i as int] != b.inputs@[q],
            decreases nb - j,
        {
            if a.inputs[i] == b.inputs[j] {
                proof {
                    assert(a@.inputs[i as int] == b@.inputs[j as int]);
                }
                return true;
            }
            j += 1;
        }
        i += 1;
    }
    false
}

/// The in-memory authoritative set of admitted pending transactions, with the
/// conflict and capacity policy of the design.
pub struct PendingPool {
    pub cfg: Config,
    pub entries: Vec<PendingEntry>,
    pub weight: u64,
    pub next_stamp: u64,
}

impl View for PendingPool {
    type V = Seq<EntryView>;

    open spec fn view(&self) -> Seq<EntryView> {
        views_of(self.entries@)
    }
}

impl PendingPool {
    /// The pool invariant: the cached weight is the summed entry size, the
    /// configured bounds hold, transaction IDs are unique, no coin is claimed
    /// twice, and stamps are distinct and below the admission counter.
    pub open spec fn wf(&self) -> bool {
        &&& self.weight == total_size(self@)
        &&& self@.len() <= self.cfg.max_pool_count
        &&& total_size(self@) <= self.cfg.max_pool_weight
        &&& unique_ids(self@)
        &&& no_coin_conflicts(self@)
        &&& distinct_stamps(self@)
        &&& stamps_below(self@, self.next_stamp)
    }

    /// An empty pool under the given configuration.
    pub fn new(cfg: Config) -> (r: Self)
        ensures
            r.wf(),
            r@ == Seq::<EntryView>::empty(),
            r.cfg == cfg,
            r.next_stamp == 0,
    {
        let entries: Vec<PendingEntry> = Vec::new();
        proof {
            assert(views_of(entries@) =~= Seq::<EntryView>::empty());
        }
        PendingPool { cfg, entries, weight: 0, next_stamp: 0 }
    }

    /// The number of pending entries.
    pub fn len(&self) -> (n: usize)
        ensures
            n == self@.len(),
    {
        self.entries.len()
    }

    /// The summed size of the pending entries.
    pub fn total_weight(&self) -> (w: u64)
        requires
            self.wf(),
        ensures
            w == total_size(self@),
    {
        self.weight
    }

    /// Whether the pool holds an entry for the given transaction ID.
    pub fn contains(&self, id: u64) -> (b: bool)
        ensures
            b == contains_id(self@, id),
    {
        let n = self.entries.len();
        let mut i: usize = 0;
        while i < n
            invariant
                n == self.entries@.len(),
                i <= n,
                forall|k: int| 0 <= k < i ==> (#[trigger] self@[k]).tx.id != id,
            decreases n - i,
        {
            if self.entries[i].tx.id == id {
                proof {
                    assert(self@[i as int].tx.id == id);
                }
                return true;
            }
            i += 1;
        }
        false
    }

    /// One admission attempt: validate, resolve coin conflicts by strict
    /// priority (an existing entry keeps its coin unless strictly outbid),
    /// insert, and restore the capacity bounds by evicting lowest-priority,
    /// oldest-first entries, the new entry itself eligible. Returns the
    /// outcome and the status events the attempt emitted, in order.
    #[verifier::loop_isolation(false)]
    #[verifier::rlimit(60)]
    pub fn insert(&mut self, tx: Transaction, coin_states: &Vec<CoinState>) -> (r: (
        InsertResult,
        Vec<StatusMessage>,
    ))
        requires
            old(self).wf(),
            coin_states@.len() == tx.inputs@.len(),
        ensures
            final(self).wf(),
            final(self).cfg == old(self).cfg,
            ({
                let o = admit_step(
                    old(self)@,
                    tx@,
                    coin_states@,
                    old(self).next_stamp,
                    old(self).cfg,
                );
                &&& r.0 == o.result
                &&& final(self)@ == o.pool
                &&& r.1@ == o.events
                &&& final(self).next_stamp == if o.stamp_used {
                    old(self).next_stamp + 1
                } else {
                    old(self).next_stamp as int
                }
            }),
    {
        let ghost s0 = self@;
        let ghost cfg0 = self.cfg;
        let ghost txv = tx@;
        if self.contains(tx.id) {
            return (InsertResult::RejectedDuplicate, Vec::new());
        }
        let verr = validate(&tx, coin_states, &self.cfg);
        if let Some(e) = verr {
            return (InsertResult::RejectedValidation(e), Vec::new());
        }
        if self.next_stamp == u64::MAX {
            return (InsertResult::RejectedCapacity, Vec::new());
        }
        let n = self.entries.len();
        let mut i: usize = 0;
        while i < n
            invariant
                i <= n,
                forall|k: int|
                    0 <= k < i ==> (txs_conflict((#[trigger] s0[k]).tx, txv) ==> txv.gas_price
                        > s0[k].tx.gas_price),
            decreases n - i,
        {
            let c = shares_coin(&self.entries[i].tx, &tx);
            if c && tx.gas_price <= self.entries[i].tx.gas_price {
                proof {
                    assert(txs_conflict(s0[i as int].tx, txv));
                    assert(has_conflict(s0, txv));
                    assert(!outbids_all(s0, txv));
                }
                return (InsertResult::RejectedConflict(tx.id), Vec::new());
            }
            i += 1;
        }
        proof {
            assert(outbids_all(s0, txv));
        }
        // Drop the conflicting entries, which the incoming transaction outbids.
        let txid = tx.id;
        let tx_size = tx.size;
        let ghost keepf = keeps_coins(txv);
        let mut kept: Vec<PendingEntry> = Vec::new();
        let mut events: Vec<StatusMessage> = Vec::new();
        let mut kept_weight: u64 = 0;
        let mut i2: usize = 0;
        while i2 < n
            invariant
                i2 <= n,
                views_of(kept@) == filter_keep(s0.take(i2 as int), keepf),
                events@ == conflict_event_trace(s0.take(i2 as int), txv),
                kept_weight == total_size(filter_keep(s0.take(i2 as int), keepf)),
            decreases n - i2,
        {
            let ghost pre = s0.take(i2 as int);
            let ghost post = s0.take(i2 as int + 1);
            proof {
                assert(post.drop_last() =~= pre);
                assert(post.last() == s0[i2 as int]);
            }
            let e = self.entries[i2].clone();
            proof {
                assert(e@ == s0[i2 as int]);
            }
            let c = shares_coin(&e.tx, &tx);
            if c {
                events.push(
                    StatusMessage {
                        tx_id: e.tx.id,
                        event: StatusEvent::SqueezedOut(DropReason::Conflict),
                    },
                );
            } else {
                proof {
                    assert(filter_keep(post, keepf) == filter_keep(pre, keepf).push(post.last()));
                    assert(filter_keep(post, keepf).drop_last() =~= filter_keep(pre, keepf));
                    lemma_filter_keep_size(post, keepf);
                    lemma_total_size_take_le(s0, i2 as int + 1);
                    assert(kept_weight + e.tx.size == total_size(filter_keep(post, keepf)));
                    assert(total_size(s0) == old(self).weight);
                }
                kept_weight = kept_weight + e.tx.size;
                kept.push(e);
                proof {
                    assert(views_of(kept@) =~= filter_keep(post, keepf));
                }
            }
            i2 += 1;
        }
        proof {
            assert(s0.take(n as int) =~= s0);
        }
        // Insert the incoming transaction itself.
        let stamp = self.next_stamp;
        let entry = PendingEntry { tx, stamp };
        kept.push(entry);
        events.push(StatusMessage { tx_id: txid, event: StatusEvent::Submitted });
        let ghost newv = EntryView { tx: txv, stamp };
        let ghost tentative = survivors(s0, txv).push(newv);
        let ghost full_events = conflict_event_trace(s0, txv).push(
            StatusMessage { tx_id: txv.id, event: StatusEvent::Submitted },
        ) + capacity_event_trace(tentative, cfg0);
        proof {
            assert(views_of(kept@) =~= tentative);
            lemma_filter_keep_membership(s0, keepf);
            lemma_filter_keep_pairwise(s0, keepf, |a: EntryView, b: EntryView| a.tx.id != b.tx.id);
            lemma_filter_keep_pairwise(
                s0,
                keepf,
                |a: EntryView, b: EntryView| !txs_conflict(a.tx, b.tx),
            );
            lemma_filter_keep_pairwise(s0, keepf, |a: EntryView, b: EntryView| a.stamp != b.stamp);
            let surv = survivors(s0, txv);
            assert forall|a: int, b: int|
                0 <= a < tentative.len() && 0 <= b < tentative.len() && a != b implies ({
                &&& (#[trigger] tentative[a]).tx.id != (#[trigger] tentative[b]).tx.id
                &&& !txs_conflict(tentative[a].tx, tentative[b].tx)
                &&& tentative[a].stamp != tentative[b].stamp
            }) by {
                if a < surv.len() && b < surv.len() {
                    assert(tentative[a] == surv[a]);
                    assert(tentative[b] == surv[b]);
                } else if b == surv.len() {
                    assert(tentative[a] == surv[a]);
                    assert(tentative[b] == newv);
                    assert(s0.contains(surv[a]));
                    let w = choose|w: int| 0 <= w < s0.len() && s0[w] == surv[a];
                    if s0[w].tx.id == txv.id {
                        assert(contains_id(s0, txv.id));
                    }
                    assert(keepf(surv[a]));
                    assert(!txs_conflict(surv[a].tx, txv));
                    lemma_conflict_symmetric(surv[a].tx, txv);
                    assert(s0[w].stamp < old(self).next_stamp);
                } else {
                    assert(a == surv.len());
                    assert(tentative[a] == newv);
                    assert(tentative[b] == surv[b]);
                    assert(s0.contains(surv[b]));
                    let w = choose|w: int| 0 <= w < s0.len() && s0[w] == surv[b];
                    if s0[w].tx.id == txv.id {
                        assert(contains_id(s0, txv.id));
                    }
                    assert(keepf(surv[b]));
                    assert(!txs_conflict(surv[b].tx, txv));
                    lemma_conflict_symmetric(surv[b].tx, txv);
                    assert(s0[w].stamp < old(self).next_stamp);
                }
            }
            assert forall|k: int| 0 <= k < tentative.len() implies (#[trigger] tentative[k]).stamp
                <= stamp by {
                if k < surv.len() {
                    assert(tentative[k] == surv[k]);
                    assert(s0.contains(surv[k]));
                    let w = choose|w: int| 0 <= w < s0.len() && s0[w] == surv[k];
                    assert(s0[w].stamp < old(self).next_stamp);
                }
            }
            assert(tentative.drop_last() =~= surv);
            assert(total_size(tentative) == kept_weight + tx_size);
        }
        // Restore the capacity bounds.
        let max_count = self.cfg.max_pool_count;
        let max_weight = self.cfg.max_pool_weight;
        let mut cur_weight: u128 = kept_weight as u128 + tx_size as u128;
        while kept.len() > max_count || cur_weight > max_weight as u128
            invariant
                prune(views_of(kept@), cfg0) == prune(tentative, cfg0),
                events@ + capacity_event_trace(views_of(kept@), cfg0) == full_events,
                cur_weight as int == total_size(views_of(kept@)),
                unique_ids(views_of(kept@)),
                no_coin_conflicts(views_of(kept@)),
                distinct_stamps(views_of(kept@)),
                forall|k: int|
                    0 <= k < views_of(kept@).len() ==> (#[trigger] views_of(kept@)[k]).stamp
                        <= stamp,
            decreases kept.len(),
        {
            let ghost kv = views_of(kept@);
            proof {
                lemma_total_size_nonneg(kv);
                assert(over_caps(kv, cfg0));
                assert(kv.len() > 0);
            }
            let m = kept.len();
            let mut best: usize = 0;
            let mut j: usize = 1;
            while j < m
                invariant
                    m == kept@.len(),
                    1 <= j <= m,
                    (best as int) < j,
                    kv == views_of(kept@),
                    forall|k: int|
                        0 <= k < j && k != best ==> evicted_before(kv[best as int], #[trigger] kv[k]),
                decreases m - j,
            {
                let better = kept[j].tx.gas_price < kept[best].tx.gas_price || (kept[j].tx.gas_price
                    == kept[best].tx.gas_price && kept[j].stamp < kept[best].stamp);
                if better {
                    proof {
                        assert(evicted_before(kv[j as int], kv[best as int]));
                        assert forall|k: int| 0 <= k < j + 1 && k != j implies evicted_before(
                            kv[j as int],
                            #[trigger] kv[k],
                        ) by {
                            if k != best {
                                assert(evicted_before(kv[best as int], kv[k]));
                            }
                        }
                    }
                    best = j;
                } else {
                    proof {
                        assert(kv[best as int].stamp != kv[j as int].stamp);
                        assert(evicted_before(kv[best as int], kv[j as int]));
                    }
                }
                j += 1;
            }
            proof {
                assert(is_victim(kv, best as int));
            }
            let victim_id = kept[best].tx.id;
            let victim_size = kept[best].tx.size;
            events.push(
                StatusMessage {
                    tx_id: victim_id,
                    event: StatusEvent::SqueezedOut(DropReason::Capacity),
                },
            );
            let ghost events_pre = events@;
            let ghost kept_pre = kept@;
            let _victim = kept.remove(best);
            proof {
                let gi = choose|w: int| is_victim(kv, w);
                lemma_victim_unique(kv, gi, best as int);
                lemma_views_remove(kept_pre, best as int);
                assert(views_of(kept@) == kv.remove(best as int));
                lemma_total_size_remove(kv, best as int);
                lemma_total_size_nonneg(kv.remove(best as int));
                lemma_remove_pairwise(
                    kv,
                    best as int,
                    |a: EntryView, b: EntryView| a.tx.id != b.tx.id,
                );
                lemma_remove_pairwise(
                    kv,
                    best as int,
                    |a: EntryView, b: EntryView| !txs_conflict(a.tx, b.tx),
                );
                lemma_remove_pairwise(
                    kv,
                    best as int,
                    |a: EntryView, b: EntryView| a.stamp != b.stamp,
                );
                kv.remove_ensures(best as int);
                assert(prune(kv, cfg0) == prune(kv.remove(best as int), cfg0));
                assert(capacity_event_trace(kv, cfg0) == seq![
                    StatusMessage {
                        tx_id: kv[best as int].tx.id,
                        event: StatusEvent::SqueezedOut(DropReason::Capacity),
                    },
                ] + capacity_event_trace(kv.remove(best as int), cfg0));
                assert(events_pre + capacity_event_trace(kv.remove(best as int), cfg0)
                    =~= full_events);
            }
            cur_weight = cur_weight - victim_size as u128;
        }
        proof {
            let kv = views_of(kept@);
            assert(!over_caps(kv, cfg0));
            assert(prune(kv, cfg0) == kv);
            assert(capacity_event_trace(kv, cfg0) == Seq::<StatusMessage>::empty());
            assert(events@ + capacity_event_trace(kv, cfg0) =~= events@);
        }
        let new_weight: u64 = cur_weight as u64;
        self.entries = kept;
        self.weight = new_weight;
        self.next_stamp = stamp + 1;
        let admitted = self.contains(txid);
        let res = if admitted {
            InsertResult::Admitted
        } else {
            InsertResult::RejectedCapacity
        };
        (res, events)
    }

    /// Unconditional removal of the named transactions, used by the import
    /// reactor. Emits no events itself: the caller emits the fitting status.
    #[verifier::loop_isolation(false)]
    pub fn remove(&mut self, ids: &Vec<u64>)
        requires
            old(self).wf(),
        ensures
            final(self).wf(),
            final(self)@ == remove_ids(old(self)@, ids@),
            final(self).cfg == old(self).cfg,
            final(self).next_stamp == old(self).next_stamp,
    {
        let ghost s0 = self@;
        let ghost keepf = not_named(ids@);
        let n = self.entries.len();
        let mut kept: Vec<PendingEntry> = Vec::new();
        let mut kept_weight: u64 = 0;
        let mut i: usize = 0;
        while i < n
            invariant
                i <= n,
                views_of(kept@) == filter_keep(s0.take(i as int), keepf),
                kept_weight == total_size(filter_keep(s0.take(i as int), keepf)),
            decreases n - i,
        {
            let ghost pre = s0.take(i as int);
            let ghost post = s0.take(i as int + 1);
            proof {
                assert(post.drop_last() =~= pre);
                assert(post.last() == s0[i as int]);
            }
            let e = self.entries[i].clone();
            proof {
                assert(e@ == s0[i as int]);
            }
            if !ids_contain(ids, e.tx.id) {
                proof {
                    assert(keepf(post.last()));
                    assert(filter_keep(post, keepf) == filter_keep(pre, keepf).push(post.last()));
                    assert(filter_keep(post, keepf).drop_last() =~= filter_keep(pre, keepf));
                    lemma_filter_keep_size(post, keepf);
                    lemma_total_size_take_le(s0, i as int + 1);
                    assert(total_size(s0) == old(self).weight);
                }
                kept_weight = kept_weight + e.tx.size;
                kept.push(e);
                proof {
                    assert(views_of(kept@) =~= filter_keep(post, keepf));
                }
            } else {
                proof {
                    assert(!keepf(post.last()));
                }
            }
            i += 1;
        }
        proof {
            assert(s0.take(n as int) =~= s0);
            lemma_filter_keep_size(s0, keepf);
            lemma_filter_keep_membership(s0, keepf);
            lemma_filter_keep_pairwise(s0, keepf, |a: EntryView, b: EntryView| a.tx.id != b.tx.id);
            lemma_filter_keep_pairwise(
                s0,
                keepf,
                |a: EntryView, b: EntryView| !txs_conflict(a.tx, b.tx),
            );
            lemma_filter_keep_pairwise(s0, keepf, |a: EntryView, b: EntryView| a.stamp != b.stamp);
            let f = filter_keep(s0, keepf);
            assert forall|k: int| 0 <= k < f.len() implies (#[trigger] f[k]).stamp
                < old(self).next_stamp by {
                assert(s0.contains(f[k]));
                let w = choose|w: int| 0 <= w < s0.len() && s0[w] == f[k];
                assert(s0[w].stamp < old(self).next_stamp);
            }
        }
        self.entries = kept;
        self.weight = kept_weight;
    }

    /// A read-only snapshot for block building: the pending transactions by
    /// descending priority (oldest first within a tie) as long as the
    /// weight budget admits the next one.
    #[verifier::loop_isolation(false)]
    pub fn select(&self, max_weight: u64) -> (r: Vec<Transaction>)
        requires
            self.wf(),
        ensures
            r@.map_values(|t: Transaction| t@) == selection(self@, max_weight as int),
    {
        let ghost s0 = self@;
        let n = self.entries.len();
        let mut scratch: Vec<PendingEntry> = Vec::new();
        let mut i: usize = 0;
        while i < n
            invariant
                i <= n,
                views_of(scratch@) == s0.take(i as int),
            decreases n - i,
        {
            let e = self.entries[i].clone();
            proof {
                assert(e@ == s0[i as int]);
                assert(s0.take(i as int + 1).drop_last() =~= s0.take(i as int));
            }
            scratch.push(e);
            proof {
                assert(views_of(scratch@) =~= s0.take(i as int + 1));
            }
            i += 1;
        }
        proof {
            assert(s0.take(n as int) =~= s0);
        }
        let mut out: Vec<Transaction> = Vec::new();
        let mut remaining: u64 = max_weight;
        let mut done = false;
        while !done && scratch.len() > 0
            invariant
                distinct_stamps(views_of(scratch@)),
                out@.map_values(|t: Transaction| t@) + (if done {
                    Seq::<TxView>::empty()
                } else {
                    selection(views_of(scratch@), remaining as int)
                }) == selection(s0, max_weight as int),
            decreases scratch.len(), (if done { 0int } else { 1int }),
        {
            let ghost kv = views_of(scratch@);
            let m = scratch.len();
            let mut best: usize = 0;
            let mut j: usize = 1;
            while j < m
                invariant
                    m == scratch@.len(),
                    1 <= j <= m,
                    (best as int) < j,
                    kv == views_of(scratch@),
                    forall|k: int|
                        0 <= k < j && k != best ==> picked_before(kv[best as int], #[trigger] kv[k]),
                decreases m - j,
            {
                let better = scratch[j].tx.gas_price > scratch[best].tx.gas_price || (
                scratch[j].tx.gas_price == scratch[best].tx.gas_price && scratch[j].stamp
                    < scratch[best].stamp);
                if better {
                    proof {
                        assert(picked_before(kv[j as int], kv[best as int]));
                        assert forall|k: int| 0 <= k < j + 1 && k != j implies picked_before(
                            kv[j as int],
                            #[trigger] kv[k],
                        ) by {
                            if k != best {
                                assert(picked_before(kv[best as int], kv[k]));
                            }
                        }
                    }
                    best = j;
                } else {
                    proof {
                        assert(kv[best as int].stamp != kv[j as int].stamp);
                        assert(picked_before(kv[best as int], kv[j as int]));
                    }
                }
                j += 1;
            }
            proof {
                assert(is_pick(kv, best as int));
                let gi = choose|w: int| is_pick(kv, w);
                lemma_pick_unique(kv, gi, best as int);
            }
            if scratch[best].tx.size <= remaining {
                let picked = scratch[best].tx.clone();
                proof {
                    assert(picked@ == kv[best as int].tx);
                }
                let ghost out_pre = out@;
                out.push(picked);
                remaining = remaining - scratch[best].tx.size;
                let ghost scratch_pre = scratch@;
                let _gone = scratch.remove(best);
                proof {
                    lemma_views_remove(scratch_pre, best as int);
                    lemma_remove_pairwise(
                        kv,
                        best as int,
                        |a: EntryView, b: EntryView| a.stamp != b.stamp,
                    );
                    assert(out@.map_values(|t: Transaction| t@) =~= out_pre.map_values(
                        |t: Transaction| t@,
                    ).push(kv[best as int].tx));
                    assert(out_pre.map_values(|t: Transaction| t@).push(kv[best as int].tx)
                        + selection(views_of(scratch@), remaining as int) =~= out_pre.map_values(
                        |t: Transaction| t@,
                    ) + (seq![kv[best as int].tx] + selection(
                        views_of(scratch@),
                        remaining as int,
                    )));
                }
            } else {
                proof {
                    assert(selection(kv, remaining as int) == Seq::<TxView>::empty());
                }
                done = true;
            }
        }
        proof {
            if !done {
                assert(views_of(scratch@).len() == 0);
            }
            assert(out@.map_values(|t: Transaction| t@) + Seq::<TxView>::empty() =~= out@
                .map_values(|t: Transaction| t@));
        }
        out
    }
}

/// Whether `ids` names `id`.
pub fn ids_contain(ids: &Vec<u64>, id: u64) -> (b: bool)
    ensures
        b == ids@.contains(id),
{
    let n = ids.len();
    let mut i: usize = 0;
    while i < n
        invariant
            i <= n,
            n == ids@.len(),
            forall|k: int| 0 <= k < i ==> ids@[k] != id,
        decreases n - i,
    {
        if ids[i] == id {
            proof {
                assert(ids@[i as int] == id);
            }
            return true;
        }
        i += 1;
    }
    false
}

} // verus!
