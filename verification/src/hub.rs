//! The broadcast hub's queueing policy, as verified data.
//!
//! One shared publish point feeds one bounded queue per subscriber.  A
//! publish appends the frame to every queue; a full queue first drops its
//! oldest frame and counts the drop, so a slow consumer never blocks the
//! publisher, never crashes it, and its losses stay observable.  The
//! unverified shell maps this model onto the runtime's broadcast channel,
//! whose lagged-receiver behaviour is the same policy.

use vstd::prelude::*;
use crate::registry::copy_bytes;

verus! {

/// Model of one subscriber: its delivery queue and its drop counter.
#[verifier::ext_equal]
pub ghost struct SubView {
    pub id: u64,
    pub queue: Seq<Seq<u8>>,
    pub dropped: u64,
}

/// Model of the hub.
#[verifier::ext_equal]
pub ghost struct HubView {
    pub cap: nat,
    pub next_id: u64,
    pub subs: Seq<SubView>,
}

pub struct Subscriber {
    id: u64,
    queue: Vec<Vec<u8>>,
    dropped: u64,
}

impl View for Subscriber {
    type V = SubView;

    closed spec fn view(&self) -> SubView {
        SubView { id: self.id, queue: self.queue.deep_view(), dropped: self.dropped }
    }
}

impl DeepView for Subscriber {
    type V = SubView;

    open spec fn deep_view(&self) -> SubView {
        self.view()
    }
}

/// The fan-out point: every subscriber's queue, behind one publish call.
pub struct Hub {
    cap: usize,
    next_id: u64,
    subs: Vec<Subscriber>,
}

impl View for Hub {
    type V = HubView;

    closed spec fn view(&self) -> HubView {
        HubView {
            cap: self.cap as nat,
            next_id: self.next_id,
            subs: self.subs.deep_view(),
        }
    }
}

/// Index of the subscriber with handle `sid`, or `-1`.
pub open spec fn sub_idx(subs: Seq<SubView>, sid: u64) -> int
    decreases subs.len(),
{
    if subs.len() == 0 {
        -1
    } else if subs[0].id == sid {
        0
    } else {
        let r = sub_idx(subs.skip(1), sid);
        if r == -1 {
            -1
        } else {
            r + 1
        }
    }
}

pub proof fn lemma_sub_idx(subs: Seq<SubView>, sid: u64)
    ensures
        -1 <= sub_idx(subs, sid) < subs.len(),
        sub_idx(subs, sid) >= 0 ==> subs[sub_idx(subs, sid)].id == sid,
        sub_idx(subs, sid) == -1 ==> forall|m: int|
            0 <= m < subs.len() ==> (#[trigger] subs[m]).id != sid,
    decreases subs.len(),
{
    if subs.len() > 0 && subs[0].id != sid {
        lemma_sub_idx(subs.skip(1), sid);
        if sub_idx(subs, sid) == -1 {
            assert forall|m: int| 0 <= m < subs.len() implies (#[trigger] subs[m]).id != sid by {
                if m > 0 {
                    assert(subs.skip(1)[m - 1] == subs[m]);
                }
            }
        }
    }
}

pub proof fn lemma_sub_idx_is_first(subs: Seq<SubView>, sid: u64, k: int)
    requires
        0 <= k < subs.len(),
        subs[k].id == sid,
        forall|m: int| 0 <= m < k ==> (#[trigger] subs[m]).id != sid,
    ensures
        sub_idx(subs, sid) == k,
    decreases k,
{
    if k > 0 {
        assert(forall|m: int|
            0 <= m < subs.skip(1).len() ==> #[trigger] subs.skip(1)[m] == subs[m + 1]);
        lemma_sub_idx_is_first(subs.skip(1), sid, k - 1);
    }
}

pub proof fn lemma_sub_idx_none(subs: Seq<SubView>, sid: u64)
    requires
        forall|m: int| 0 <= m < subs.len() ==> (#[trigger] subs[m]).id != sid,
    ensures
        sub_idx(subs, sid) == -1,
{
    lemma_sub_idx(subs, sid);
    if sub_idx(subs, sid) >= 0 {
        assert(subs[sub_idx(subs, sid)].id == sid);
    }
}

/// Well-formedness: a real capacity, unique handles below the next handle,
/// queues within capacity.
pub open spec fn hub_wf(h: HubView) -> bool {
    &&& h.cap >= 1
    &&& forall|i: int| 0 <= i < h.subs.len() ==> (#[trigger] h.subs[i]).queue.len() <= h.cap
    &&& forall|i: int| 0 <= i < h.subs.len() ==> (#[trigger] h.subs[i]).id < h.next_id
    &&& forall|i: int, j: int|
        0 <= i < j < h.subs.len() ==> (#[trigger] h.subs[i]).id != (#[trigger] h.subs[j]).id
}

/// A drop counter never wraps: it sticks at its maximum.
pub open spec fn sat_inc(d: u64) -> u64 {
    if d < u64::MAX {
        (d + 1) as u64
    } else {
        d
    }
}

/// What one publish does to one subscriber: append the frame, dropping the
/// oldest first if the queue is full.
pub open spec fn pub_effect(s: SubView, frame: Seq<u8>, cap: nat) -> SubView {
    if s.queue.len() < cap {
        SubView { id: s.id, queue: s.queue.push(frame), dropped: s.dropped }
    } else {
        SubView { id: s.id, queue: s.queue.skip(1).push(frame), dropped: sat_inc(s.dropped) }
    }
}

/// Fan-out completeness: one publish reaches every subscriber's queue — the
/// frame just published is at the back, byte for byte, whether or not the
/// queue overflowed — and the queue stays within capacity.
pub proof fn lemma_fanout_observes_frame(s: SubView, frame: Seq<u8>, cap: nat)
    requires
        cap >= 1,
        s.queue.len() <= cap,
    ensures
        pub_effect(s, frame, cap).queue.len() >= 1,
        pub_effect(s, frame, cap).queue.len() <= cap,
        pub_effect(s, frame, cap).queue.last() == frame,
        pub_effect(s, frame, cap).id == s.id,
{
}

impl Hub {
    /// A hub with no subscribers and per-subscriber capacity `cap`.
    pub fn new(cap: usize) -> (h: Hub)
        requires
            cap >= 1,
        ensures
            h@.cap == cap,
            h@.subs.len() == 0,
            hub_wf(h@),
    {
        let h = Hub { cap, next_id: 0, subs: Vec::new() };
        proof {
            assert(h@.subs =~= Seq::<SubView>::empty());
        }
        h
    }

    /// Creates a delivery queue and returns its handle.
    pub fn subscribe(&mut self) -> (sid: u64)
        requires
            hub_wf(old(self)@),
            old(self)@.next_id < u64::MAX,
        ensures
            hub_wf(final(self)@),
            sid == old(self)@.next_id,
            final(self)@.cap == old(self)@.cap,
            final(self)@.next_id == old(self)@.next_id + 1,
            final(self)@.subs == old(self)@.subs.push(
                SubView { id: sid, queue: Seq::empty(), dropped: 0 },
            ),
    {
        let sid = self.next_id;
        self.next_id = sid + 1;
        let sub = Subscriber { id: sid, queue: Vec::new(), dropped: 0 };
        proof {
            assert(sub@.queue =~= Seq::<Seq<u8>>::empty());
        }
        self.subs.push(sub);
        proof {
            assert(self@.subs =~~= old(self)@.subs.push(
                SubView { id: sid, queue: Seq::empty(), dropped: 0 },
            ));
        }
        sid
    }

    /// Releases a subscriber's queue; a handle already gone is a no-op, so
    /// racing cleanups are safe.
    pub fn unsubscribe(&mut self, sid: u64)
        requires
            hub_wf(old(self)@),
        ensures
            hub_wf(final(self)@),
            final(self)@.cap == old(self)@.cap,
            final(self)@.next_id == old(self)@.next_id,
            final(self)@.subs == (if sub_idx(old(self)@.subs, sid) >= 0 {
                old(self)@.subs.remove(sub_idx(old(self)@.subs, sid))
            } else {
                old(self)@.subs
            }),
    {
        let ghost subs0 = self@.subs;
        let mut k: usize = 0;
        while k < self.subs.len()
            invariant
                hub_wf(old(self)@),
                subs0 == old(self)@.subs,
                self@.cap == old(self)@.cap,
                self@.next_id == old(self)@.next_id,
                0 <= k <= subs0.len(),
                self@.subs == subs0,
                self@.subs.len() == self.subs@.len(),
                forall|m: int| 0 <= m < k ==> (#[trigger] subs0[m]).id != sid,
            decreases subs0.len() - k,
        {
            proof {
                assert(subs0[k as int] == self.subs@[k as int].deep_view());
            }
            if self.subs[k].id == sid {
                self.subs.remove(k);
                proof {
                    lemma_sub_idx_is_first(subs0, sid, k as int);
                    assert(self@.subs =~~= subs0.remove(k as int));
                    assert forall|i: int, j: int|
                        0 <= i < j < self@.subs.len() implies (#[trigger] self@.subs[i]).id != (
                    #[trigger] self@.subs[j]).id by {
                        if j < k {
                        } else if i < k {
                            assert(self@.subs[j] == subs0[j + 1]);
                        } else {
                            assert(self@.subs[i] == subs0[i + 1]);
                            assert(self@.subs[j] == subs0[j + 1]);
                        }
                    }
                    assert forall|i: int| 0 <= i < self@.subs.len() implies (
                    #[trigger] self@.subs[i]).queue.len() <= self@.cap && self@.subs[i].id
                        < self@.next_id by {
                        if i < k {
                        } else {
                            assert(self@.subs[i] == subs0[i + 1]);
                        }
                    }
                }
                return ;
            }
            k += 1;
        }
        proof {
            lemma_sub_idx_none(subs0, sid);
        }
    }

    /// Enqueues `frame` for every subscriber, dropping the oldest frame of a
    /// full queue (counted, never blocking).  Every subscriber's queue ends
    /// holding the frame just published, byte for byte.
    pub fn publish(&mut self, frame: &Vec<u8>)
        requires
            hub_wf(old(self)@),
        ensures
            hub_wf(final(self)@),
            final(self)@.cap == old(self)@.cap,
            final(self)@.next_id == old(self)@.next_id,
            final(self)@.subs.len() == old(self)@.subs.len(),
            forall|m: int| 0 <= m < final(self)@.subs.len() ==> #[trigger] final(self)@.subs[m]
                == pub_effect(old(self)@.subs[m], frame@, old(self)@.cap),
            forall|m: int|
                0 <= m < final(self)@.subs.len() ==> (#[trigger] final(self)@.subs[m]).queue.len()
                    >= 1 && final(self)@.subs[m].queue.last() == frame@,
    {
        let ghost subs0 = self@.subs;
        let ghost capv = self@.cap;
        let mut i: usize = 0;
        while i < self.subs.len()
            invariant
                hub_wf(old(self)@),
                0 <= i <= subs0.len(),
                self@.cap == capv,
                self@.next_id == old(self)@.next_id,
                capv == old(self)@.cap,
                subs0 == old(self)@.subs,
                self@.subs.len() == subs0.len(),
                self@.subs.len() == self.subs@.len(),
                forall|m: int| 0 <= m < i ==> #[trigger] self@.subs[m] == pub_effect(
                    subs0[m],
                    frame@,
                    capv,
                ),
                forall|m: int| i <= m < subs0.len() ==> #[trigger] self@.subs[m] == subs0[m],
            decreases subs0.len() - i,
        {
            let ghost pre = self@.subs;
            let mut sub = self.subs.remove(i);
            proof {
                assert(pre[i as int] == sub@);
                assert(sub@ == subs0[i as int]);
            }
            if sub.queue.len() >= self.cap {
                sub.queue.remove(0);
                sub.dropped = if sub.dropped < u64::MAX {
                    sub.dropped + 1
                } else {
                    sub.dropped
                };
            }
            sub.queue.push(copy_bytes(frame));
            proof {
                assert(sub@ =~~= pub_effect(subs0[i as int], frame@, capv));
            }
            self.subs.insert(i, sub);
            proof {
                assert(self@.subs =~~= pre.update(
                    i as int,
                    pub_effect(subs0[i as int], frame@, capv),
                ));
            }
            i += 1;
        }
        proof {
            assert forall|i: int, j: int|
                0 <= i < j < self@.subs.len() implies (#[trigger] self@.subs[i]).id != (
            #[trigger] self@.subs[j]).id by {
                assert(self@.subs[i] == pub_effect(subs0[i], frame@, capv));
                assert(self@.subs[j] == pub_effect(subs0[j], frame@, capv));
            }
        }
    }

    /// Takes the next frame from subscriber `sid`'s queue, if any: the
    /// consuming side of the fan-out, one frame per call, oldest first.
    pub fn next_frame(&mut self, sid: u64) -> (r: Option<Vec<u8>>)
        requires
            hub_wf(old(self)@),
        ensures
            hub_wf(final(self)@),
            final(self)@.cap == old(self)@.cap,
            final(self)@.next_id == old(self)@.next_id,
            ({
                let k = sub_idx(old(self)@.subs, sid);
                if k >= 0 && old(self)@.subs[k].queue.len() > 0 {
                    r is Some && (r->0)@ == old(self)@.subs[k].queue[0] && final(self)@.subs
                        == old(self)@.subs.update(
                        k,
                        SubView {
                            id: sid,
                            queue: old(self)@.subs[k].queue.skip(1),
                            dropped: old(self)@.subs[k].dropped,
                        },
                    )
                } else {
                    r is None && final(self)@ == old(self)@
                }
            }),
    {
        let ghost subs0 = self@.subs;
        let mut k: usize = 0;
        while k < self.subs.len()
            invariant
                hub_wf(old(self)@),
                subs0 == old(self)@.subs,
                self@.cap == old(self)@.cap,
                self@.next_id == old(self)@.next_id,
                0 <= k <= subs0.len(),
                self@.subs == subs0,
                self@.subs.len() == self.subs@.len(),
                forall|m: int| 0 <= m < k ==> (#[trigger] subs0[m]).id != sid,
            decreases subs0.len() - k,
        {
            proof {
                assert(subs0[k as int] == self.subs@[k as int].deep_view());
            }
            if self.subs[k].id == sid {
                proof {
                    lemma_sub_idx_is_first(subs0, sid, k as int);
                }
                if self.subs[k].queue.len() == 0 {
                    return None;
                }
                let ghost pre = self@.subs;
                let mut sub = self.subs.remove(k);
                proof {
                    assert(pre[k as int] == sub@);
                }
                let frame = sub.queue.remove(0);
                self.subs.insert(k, sub);
                proof {
                    assert(self@.subs =~~= subs0.update(
                        k as int,
                        SubView {
                            id: sid,
                            queue: subs0[k as int].queue.skip(1),
                            dropped: subs0[k as int].dropped,
                        },
                    ));
                    assert(frame@ == subs0[k as int].queue[0]);
                    assert forall|i: int, j: int|
                        0 <= i < j < self@.subs.len() implies (#[trigger] self@.subs[i]).id != (
                    #[trigger] self@.subs[j]).id by {}
                }
                return Some(frame);
            }
            k += 1;
        }
        proof {
            lemma_sub_idx_none(subs0, sid);
        }
        None
    }

    /// How many frames subscriber `sid` has lost to overflow, if it exists:
    /// the observable face of the drop policy.
    pub fn dropped_of(&self, sid: u64) -> (r: Option<u64>)
        ensures
            ({
                let k = sub_idx(self@.subs, sid);
                if k >= 0 {
                    r == Some(self@.subs[k].dropped)
                } else {
                    r is None
                }
            }),
    {
        let ghost subs0 = self@.subs;
        let mut k: usize = 0;
        while k < self.subs.len()
            invariant
                0 <= k <= subs0.len(),
                self@.subs == subs0,
                self@.subs.len() == self.subs@.len(),
                forall|m: int| 0 <= m < k ==> (#[trigger] subs0[m]).id != sid,
            decreases subs0.len() - k,
        {
            proof {
                assert(subs0[k as int] == self.subs@[k as int].deep_view());
            }
            if self.subs[k].id == sid {
                proof {
                    lemma_sub_idx_is_first(subs0, sid, k as int);
                }
                return Some(self.subs[k].dropped);
            }
            k += 1;
        }
        proof {
            lemma_sub_idx_none(subs0, sid);
        }
        None
    }

    /// Number of live subscriptions.
    pub fn subscriber_count(&self) -> (n: usize)
        ensures
            n == self@.subs.len(),
    {
        self.subs.len()
    }
}

} // verus!
