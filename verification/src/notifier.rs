use vstd::prelude::*;
use crate::types::StatusMessage;

verus! {

/// One subscriber's buffer of not-yet-consumed status events.
pub struct Subscriber {
    pub buf: Vec<StatusMessage>,
}

impl View for Subscriber {
    type V = Seq<StatusMessage>;

    open spec fn view(&self) -> Seq<StatusMessage> {
        self.buf@
    }
}

/// The buffer views of a sequence of subscribers.
pub open spec fn buffers_of(s: Seq<Subscriber>) -> Seq<Seq<StatusMessage>> {
    s.map_values(|x: Subscriber| x@)
}

/// A bounded buffer after one publication: with no room left the oldest
/// event is dropped rather than blocking the producer; a zero capacity keeps
/// the buffer empty.
pub open spec fn push_bounded(buf: Seq<StatusMessage>, m: StatusMessage, cap: int) -> Seq<
    StatusMessage,
> {
    if cap <= 0 {
        buf
    } else if buf.len() >= cap {
        buf.skip(1).push(m)
    } else {
        buf.push(m)
    }
}

/// A bounded buffer after a sequence of publications, in order.
pub open spec fn push_bounded_all(
    buf: Seq<StatusMessage>,
    msgs: Seq<StatusMessage>,
    cap: int,
) -> Seq<StatusMessage>
    decreases msgs.len(),
{
    if msgs.len() == 0 {
        buf
    } else {
        push_bounded(push_bounded_all(buf, msgs.drop_last(), cap), msgs.last(), cap)
    }
}

/// A publish/subscribe hub broadcasting lifecycle events for pool entries.
/// Publication never blocks: under a slow or absent consumer the oldest
/// buffered event for that subscriber is dropped. A subscriber sees only
/// events published after it subscribed.
pub struct StatusNotifier {
    pub capacity: usize,
    pub subs: Vec<Subscriber>,
}

impl View for StatusNotifier {
    type V = Seq<Seq<StatusMessage>>;

    open spec fn view(&self) -> Seq<Seq<StatusMessage>> {
        buffers_of(self.subs@)
    }
}

impl StatusNotifier {
    /// Every buffer respects the configured capacity.
    pub open spec fn wf(&self) -> bool {
        forall|k: int| 0 <= k < self@.len() ==> (#[trigger] self@[k]).len() <= self.capacity
    }

    /// A hub with no subscribers and the given per-subscriber capacity.
    pub fn new(capacity: usize) -> (r: Self)
        ensures
            r.wf(),
            r@ == Seq::<Seq<StatusMessage>>::empty(),
            r.capacity == capacity,
    {
        let subs: Vec<Subscriber> = Vec::new();
        proof {
            assert(buffers_of(subs@) =~= Seq::<Seq<StatusMessage>>::empty());
        }
        StatusNotifier { capacity, subs }
    }

    /// Registers a new subscriber and returns its handle; the new buffer is
    /// empty, so only later events are delivered.
    pub fn subscribe(&mut self) -> (id: usize)
        requires
            old(self).wf(),
        ensures
            final(self).wf(),
            final(self).capacity == old(self).capacity,
            id == old(self)@.len(),
            final(self)@ == old(self)@.push(Seq::<StatusMessage>::empty()),
    {
        let id = self.subs.len();
        let buf: Vec<StatusMessage> = Vec::new();
        self.subs.push(Subscriber { buf });
        proof {
            assert(buffers_of(self.subs@) =~~= buffers_of(old(self).subs@).push(
                Seq::<StatusMessage>::empty(),
            ));
            assert forall|k: int| 0 <= k < buffers_of(self.subs@).len() implies (
            #[trigger] buffers_of(self.subs@)[k]).len() <= self.capacity by {
                if k < old(self)@.len() {
                    assert(buffers_of(self.subs@)[k] == old(self)@[k]);
                }
            }
        }
        id
    }

    /// Delivers one event to every subscriber without blocking the producer.
    #[verifier::loop_isolation(false)]
    pub fn publish(&mut self, m: StatusMessage)
        requires
            old(self).wf(),
        ensures
            final(self).wf(),
            final(self).capacity == old(self).capacity,
            final(self)@.len() == old(self)@.len(),
            forall|k: int|
                0 <= k < old(self)@.len() ==> final(self)@[k] == push_bounded(
                    old(self)@[k],
                    m,
                    old(self).capacity as int,
                ),
    {
        let ghost s0 = self@;
        let n = self.subs.len();
        let cap = self.capacity;
        let mut updated: Vec<Subscriber> = Vec::new();
        let mut i: usize = 0;
        while i < n
            invariant
                i <= n,
                buffers_of(updated@).len() == i,
                forall|k: int|
                    0 <= k < i ==> buffers_of(updated@)[k] == push_bounded(s0[k], m, cap as int),
                forall|k: int|
                    0 <= k < i ==> (#[trigger] buffers_of(updated@)[k]).len() <= cap,
            decreases n - i,
        {
            let mut b = self.subs[i].buf.clone();
            proof {
                assert(b@ =~= s0[i as int]);
                assert(s0[i as int].len() <= cap);
            }
            if cap > 0 {
                if b.len() >= cap {
                    let ghost bpre = b@;
                    let _ = b.remove(0);
                    proof {
                        assert(b@ =~= bpre.skip(1));
                    }
                }
                b.push(m);
                proof {
                    assert(b@ == push_bounded(s0[i as int], m, cap as int));
                    assert(b@.len() <= cap);
                }
            } else {
                proof {
                    assert(b@ == push_bounded(s0[i as int], m, cap as int));
                }
            }
            let ghost upre = updated@;
            let ghost bv = b@;
            updated.push(Subscriber { buf: b });
            proof {
                assert(buffers_of(updated@) =~~= buffers_of(upre).push(bv));
                assert forall|k: int| 0 <= k < i + 1 implies buffers_of(updated@)[k]
                    == push_bounded(s0[k], m, cap as int) && (#[trigger] buffers_of(
                    updated@,
                )[k]).len() <= cap by {
                    if k < i {
                        assert(buffers_of(updated@)[k] == buffers_of(upre)[k]);
                    } else {
                        assert(buffers_of(updated@)[k] == bv);
                    }
                }
            }
            i += 1;
        }
        self.subs = updated;
    }

    /// Delivers each event in order to every subscriber.
    #[verifier::loop_isolation(false)]
    pub fn publish_all(&mut self, msgs: &Vec<StatusMessage>)
        requires
            old(self).wf(),
        ensures
            final(self).wf(),
            final(self).capacity == old(self).capacity,
            final(self)@.len() == old(self)@.len(),
            forall|k: int|
                0 <= k < old(self)@.len() ==> final(self)@[k] == push_bounded_all(
                    old(self)@[k],
                    msgs@,
                    old(self).capacity as int,
                ),
    {
        let ghost s0 = self@;
        let ghost cap = self.capacity as int;
        let n = msgs.len();
        let mut i: usize = 0;
        while i < n
            invariant
                i <= n,
                self.wf(),
                self.capacity == old(self).capacity,
                self@.len() == s0.len(),
                forall|k: int|
                    0 <= k < s0.len() ==> self@[k] == push_bounded_all(
                        s0[k],
                        msgs@.take(i as int),
                        cap,
                    ),
            decreases n - i,
        {
            proof {
                assert(msgs@.take(i as int + 1).drop_last() =~= msgs@.take(i as int));
                assert(msgs@.take(i as int + 1).last() == msgs@[i as int]);
            }
            self.publish(msgs[i]);
            i += 1;
        }
        proof {
            assert(msgs@.take(n as int) =~= msgs@);
        }
    }

    /// Takes and clears the named subscriber's buffered events.
    pub fn drain(&mut self, id: usize) -> (r: Vec<StatusMessage>)
        requires
            old(self).wf(),
            id < old(self)@.len(),
        ensures
            final(self).wf(),
            final(self).capacity == old(self).capacity,
            r@ == old(self)@[id as int],
            final(self)@ == old(self)@.update(id as int, Seq::<StatusMessage>::empty()),
    {
        let old_sub = self.subs.remove(id);
        let buf: Vec<StatusMessage> = Vec::new();
        self.subs.insert(id, Subscriber { buf });
        proof {
            assert(buffers_of(self.subs@) =~= buffers_of(old(self).subs@).update(
                id as int,
                Seq::<StatusMessage>::empty(),
            ));
        }
        old_sub.buf
    }
}

} // verus!
