//! Pub/sub: subscriptions, per-subscriber FIFO queues, publish and poll;
//! and the keyspace notification queue.
use vstd::prelude::*;

use crate::frames::{build_notif_frame, build_pubsub_frame, notif_frame, pubsub_frame};
use crate::store::{Store, StoreV, Sub, SubV};
use crate::value::clone_bytes;

verus! {

/// Subscribing allocates the next id for a nonempty channel; an empty
/// channel, or an exhausted id space, changes nothing (the caller gets
/// the invalid id 0).
pub open spec fn sv_subscribe(s: StoreV, chan: Seq<u8>) -> StoreV {
    if chan.len() == 0 || s.next_sub == u64::MAX {
        s
    } else {
        StoreV {
            subs: s.subs.push(SubV { id: s.next_sub, chan: chan, queue: Seq::empty() }),
            next_sub: (s.next_sub + 1) as u64,
            ..s
        }
    }
}

/// The subscribers with the given id dropped.
pub open spec fn subs_without(subs: Seq<SubV>, id: u64) -> Seq<SubV>
    decreases subs.len(),
{
    if subs.len() == 0 {
        Seq::empty()
    } else if subs.last().id == id {
        subs_without(subs.drop_last(), id)
    } else {
        subs_without(subs.drop_last(), id) + seq![subs.last()]
    }
}

pub open spec fn sv_unsubscribe(s: StoreV, id: u64) -> StoreV {
    StoreV { subs: subs_without(s.subs, id), ..s }
}

/// The number of subscribers to the channel among the first `t`.
pub open spec fn count_chan(subs: Seq<SubV>, chan: Seq<u8>, t: int) -> int
    decreases t,
{
    if t <= 0 {
        0
    } else if subs[t - 1].chan == chan {
        count_chan(subs, chan, t - 1) + 1
    } else {
        count_chan(subs, chan, t - 1)
    }
}

/// Publishing appends the payload to the queue of every subscriber to
/// the channel.
pub open spec fn sv_publish(s: StoreV, chan: Seq<u8>, payload: Seq<u8>) -> StoreV {
    StoreV {
        subs: Seq::new(
            s.subs.len(),
            |q: int|
                if s.subs[q].chan == chan {
                    SubV { queue: s.subs[q].queue.push(payload), ..s.subs[q] }
                } else {
                    s.subs[q]
                },
        ),
        ..s
    }
}

/// The first pending message of the subscriber, when one exists.
pub open spec fn poll_result(subs: Seq<SubV>, id: u64) -> Option<Seq<u8>>
    decreases subs.len(),
{
    if subs.len() == 0 {
        None
    } else if subs[0].id == id {
        if subs[0].queue.len() > 0 {
            Some(pubsub_frame(subs[0].chan, subs[0].queue[0]))
        } else {
            None
        }
    } else {
        poll_result(subs.drop_first(), id)
    }
}

/// Polling pops the front message of the subscriber's queue.
pub open spec fn sv_poll(s: StoreV, id: u64) -> StoreV {
    StoreV {
        subs: Seq::new(
            s.subs.len(),
            |q: int|
                if s.subs[q].id == id && s.subs[q].queue.len() > 0 {
                    SubV { queue: s.subs[q].queue.drop_first(), ..s.subs[q] }
                } else {
                    s.subs[q]
                },
        ),
        ..s
    }
}

impl Store {
    /// Subscribes to a channel; returns the subscriber id, or 0 for an
    /// empty channel or an exhausted id space.
    pub fn subscribe(&mut self, chan: Vec<u8>) -> (r: u64)
        requires
            old(self).wf(),
            chan@.len() <= 0xffff_ffff,
        ensures
            final(self).wf(),
            final(self)@ == sv_subscribe(old(self)@, chan@),
            r == if chan@.len() == 0 || old(self)@.next_sub == u64::MAX {
                0u64
            } else {
                old(self)@.next_sub
            },
    {
        if chan.len() == 0 || self.next_sub == u64::MAX {
            proof {
                assert(self@ =~= sv_subscribe(old(self)@, chan@));
            }
            return 0;
        }
        let id = self.next_sub;
        self.next_sub = id + 1;
        self.subs.push(Sub { id, chan, queue: Vec::new() });
        proof {
            assert(crate::value::bytes_seq_view(Seq::<Vec<u8>>::empty()) =~= Seq::<
                Seq<u8>,
            >::empty());
            assert(self@.subs =~= old(self)@.subs.push(
                SubV { id: id, chan: chan@, queue: Seq::empty() },
            ));
            assert(self@ =~= sv_subscribe(old(self)@, chan@));
            assert(crate::store::sv_wf(self@));
        }
        id
    }

    /// Removes a subscriber; returns whether it existed.
    pub fn unsubscribe(&mut self, id: u64) -> (r: bool)
        requires
            old(self).wf(),
        ensures
            final(self).wf(),
            final(self)@ == sv_unsubscribe(old(self)@, id),
            r == exists|i: int|
                0 <= i < old(self)@.subs.len() && (#[trigger] old(self)@.subs[i]).id == id,
    {
        let ghost s0 = self@;
        let mut i: usize = 0;
        while i < self.subs.len()
            invariant
                i <= self.subs@.len(),
                self@ == s0,
                s0 == old(self)@,
                self.strs.wf(),
                self.bins.wf(),
                self.bins.cap == self.strs.cap,
                crate::store::sv_wf(s0),
                forall|q: int| 0 <= q < i ==> (#[trigger] s0.subs[q]).id != id,
            decreases self.subs.len() - i,
        {
            if self.subs[i].id == id {
                proof {
                    assert(crate::store::subs_view(self.subs@)[i as int].id == self.subs@[
                        i as int].id);
                    assert(s0.subs[i as int].id == id);
                }
                let ghost pre = self.subs@;
                let _ = self.subs.remove(i);
                proof {
                    lemma_subs_without_at(s0.subs, id, i as int);
                    assert(self@.subs =~= s0.subs.subrange(0, i as int) + s0.subs.subrange(
                        i as int + 1,
                        s0.subs.len() as int,
                    ));
                    assert(self@ =~= sv_unsubscribe(s0, id));
                    assert(crate::store::sv_wf(self@)) by {
                        assert forall|a: int, b: int|
                            0 <= a < b < self@.subs.len() implies (#[trigger] self@.subs[a]).id
                            != (#[trigger] self@.subs[b]).id by {
                            let sub = s0.subs.subrange(0, i as int) + s0.subs.subrange(
                                i as int + 1,
                                s0.subs.len() as int,
                            );
                            assert(self@.subs[a] == sub[a] && self@.subs[b] == sub[b]);
                        }
                    }
                }
                return true;
            }
            i += 1;
        }
        proof {
            lemma_subs_without_absent(s0.subs, id);
            assert(self@ =~= sv_unsubscribe(s0, id));
        }
        false
    }

    /// Delivers a payload to every subscriber of the channel; returns
    /// the number of deliveries.
    pub fn publish(&mut self, chan: &Vec<u8>, payload: &Vec<u8>) -> (r: u64)
        requires
            old(self).wf(),
            payload@.len() <= 0xffff_ffff,
        ensures
            final(self).wf(),
            final(self)@ == sv_publish(old(self)@, chan@, payload@),
            r == count_chan(old(self)@.subs, chan@, old(self)@.subs.len() as int),
    {
        let ghost s0 = self@;
        let mut count: u64 = 0;
        let mut i: usize = 0;
        while i < self.subs.len()
            invariant
                i <= self.subs@.len(),
                crate::store::sv_wf(s0),
                payload@.len() <= 0xffff_ffff,
                self.subs@.len() == s0.subs.len(),
                self.strs.wf(),
                self.bins.wf(),
                self.bins.cap == self.strs.cap,
                self.strs == old(self).strs,
                self.bins == old(self).bins,
                self.indexes == old(self).indexes,
                self.aof == old(self).aof,
                self.notifs == old(self).notifs,
                self.next_sub == old(self).next_sub,
                self.stream_ctr == old(self).stream_ctr,
                s0 == old(self)@,
                count == count_chan(s0.subs, chan@, i as int),
                count <= i,
                forall|q: int|
                    i <= q < s0.subs.len() ==> #[trigger] crate::store::subs_view(
                        self.subs@,
                    )[q] == s0.subs[q],
                forall|q: int|
                    0 <= q < i ==> #[trigger] crate::store::subs_view(self.subs@)[q] == (
                    if s0.subs[q].chan == chan@ {
                        SubV { queue: s0.subs[q].queue.push(payload@), ..s0.subs[q] }
                    } else {
                        s0.subs[q]
                    }),
            decreases self.subs.len() - i,
        {
            let ghost pre = self.subs@;
            let mut sub = self.subs.remove(i);
            if crate::value::bytes_eq(&sub.chan, chan) {
                let ghost qpre = sub.queue@;
                sub.queue.push(clone_bytes(payload));
                count = count + 1;
                proof {
                    assert(crate::value::bytes_seq_view(sub.queue@)
                        =~= crate::value::bytes_seq_view(qpre).push(payload@));
                }
            }
            self.subs.insert(i, sub);
            i += 1;
            proof {
                assert(self.subs@ =~= pre.update(i - 1, self.subs@[i - 1]));
                assert(crate::store::subs_view(pre)[i - 1] == s0.subs[i - 1]);
                assert forall|q: int|
                    0 <= q < self.subs@.len() && q != i - 1 implies #[trigger] crate::store::subs_view(
                    self.subs@,
                )[q] == crate::store::subs_view(pre)[q] by {
                    assert(self.subs@[q] == pre[q]);
                }
            }
        }
        proof {
            assert(self@.subs =~= sv_publish(s0, chan@, payload@).subs);
            assert(self@ =~= sv_publish(s0, chan@, payload@));
            assert(crate::store::sv_wf(self@)) by {
                let ns = sv_publish(s0, chan@, payload@).subs;
                assert forall|a: int|
                    0 <= a < ns.len() implies {
                    &&& 1 <= (#[trigger] ns[a]).id < self@.next_sub
                    &&& 1 <= ns[a].chan.len() <= 0xffff_ffff
                    &&& forall|q: int|
                        0 <= q < ns[a].queue.len() ==> (#[trigger] ns[a].queue[q]).len()
                            <= 0xffff_ffff
                } by {
                    assert(crate::store::subs_wf(s0.subs, s0.next_sub) && 0 <= a
                        < s0.subs.len());
                }
            }
        }
        count
    }

    /// Pops the front message of the subscriber's queue as a frame;
    /// `None` when the queue is empty or the id is unknown.
    pub fn poll(&mut self, id: u64) -> (r: Option<Vec<u8>>)
        requires
            old(self).wf(),
        ensures
            final(self).wf(),
            final(self)@ == sv_poll(old(self)@, id),
            match r {
                Some(b) => poll_result(old(self)@.subs, id) == Some(b@),
                None => poll_result(old(self)@.subs, id) is None,
            },
    {
        let ghost s0 = self@;
        let mut i: usize = 0;
        proof {
            assert(s0.subs.skip(0) =~= s0.subs);
            assert(poll_result(s0.subs, id) == poll_result(s0.subs.skip(0), id));
        }
        while i < self.subs.len()
            invariant
                i <= self.subs@.len(),
                self@ == s0,
                s0 == old(self)@,
                self.strs.wf(),
                self.bins.wf(),
                self.bins.cap == self.strs.cap,
                crate::store::sv_wf(s0),
                poll_result(s0.subs, id) == poll_result(s0.subs.skip(i as int), id),
                forall|q: int| 0 <= q < i ==> (#[trigger] s0.subs[q]).id != id,
            decreases self.subs.len() - i,
        {
            proof {
                assert(s0.subs.skip(i as int)[0] == s0.subs[i as int]);
                assert(s0.subs.skip(i as int).drop_first() =~= s0.subs.skip(i as int + 1));
            }
            if self.subs[i].id == id {
                let ghost pre = self.subs@;
                let mut sub = self.subs.remove(i);
                if sub.queue.len() == 0 {
                    self.subs.insert(i, sub);
                    proof {
                        assert(self.subs@ =~= pre);
                        assert(self@ =~= sv_poll(s0, id));
                    }
                    return None;
                }
                let ghost qpre = sub.queue@;
                let msg = sub.queue.remove(0);
                let frame = build_pubsub_frame(&sub.chan, &msg);
                self.subs.insert(i, sub);
                proof {
                    assert(crate::value::bytes_seq_view(qpre.remove(0))
                        =~= crate::value::bytes_seq_view(qpre).drop_first());
                    assert(self.subs@ =~= pre.update(i as int, self.subs@[i as int]));
                    assert(crate::store::subs_view(pre)[i as int] == s0.subs[i as int]);
                    assert forall|q: int|
                        0 <= q < self.subs@.len() && q != i as int implies #[trigger] crate::store::subs_view(
                        self.subs@,
                    )[q] == crate::store::subs_view(pre)[q] by {
                        assert(self.subs@[q] == pre[q]);
                    }
                    assert(self@.subs =~= sv_poll(s0, id).subs);
                    assert(self@ =~= sv_poll(s0, id));
                    assert(crate::store::sv_wf(self@)) by {
                        let ns = sv_poll(s0, id).subs;
                        assert forall|a: int|
                            0 <= a < ns.len() implies {
                            &&& 1 <= (#[trigger] ns[a]).id < self@.next_sub
                            &&& 1 <= ns[a].chan.len() <= 0xffff_ffff
                            &&& forall|q: int|
                                0 <= q < ns[a].queue.len() ==> (#[trigger] ns[a].queue[q]).len()
                                    <= 0xffff_ffff
                        } by {
                            assert(crate::store::subs_wf(s0.subs, s0.next_sub) && 0 <= a
                                < s0.subs.len());
                            assert forall|q: int|
                                0 <= q < ns[a].queue.len() implies (
                            #[trigger] ns[a].queue[q]).len() <= 0xffff_ffff by {
                                if ns[a].id == id && s0.subs[a].queue.len() > 0 {
                                    assert(ns[a].queue[q] == s0.subs[a].queue[q + 1]);
                                }
                            }
                        }
                    }
                }
                return Some(frame);
            }
            i += 1;
        }
        proof {
            assert(s0.subs.skip(self.subs@.len() as int) =~= Seq::<SubV>::empty());
            assert(self@ =~= sv_poll(s0, id));
        }
        None
    }

    /// Pops the oldest pending notification as a frame.
    pub fn notify_poll(&mut self) -> (r: Option<Vec<u8>>)
        requires
            old(self).wf(),
        ensures
            final(self).wf(),
            old(self)@.notifs.len() == 0 ==> r is None && final(self)@ == old(self)@,
            old(self)@.notifs.len() > 0 ==> final(self)@ == (StoreV {
                notifs: old(self)@.notifs.drop_first(),
                ..old(self)@
            }) && (r matches Some(b) && b@ == notif_frame(
                old(self)@.notifs[0].0,
                old(self)@.notifs[0].1,
                old(self)@.notifs[0].2,
            )),
    {
        if self.notifs.len() == 0 {
            proof {
                assert(self@ =~= old(self)@);
            }
            return None;
        }
        proof {
            assert(crate::store::notifs_wf(old(self)@.notifs));
            assert(old(self)@.notifs[0] == (
                self.notifs@[0].kind,
                self.notifs@[0].key@,
                self.notifs@[0].at_ms,
            ));
        }
        let n = self.notifs.remove(0);
        let frame = build_notif_frame(n.kind, &n.key, n.at_ms);
        proof {
            assert(crate::store::notifs_view(self.notifs@) =~= old(self)@.notifs.drop_first());
            assert(self@ =~= (StoreV { notifs: old(self)@.notifs.drop_first(), ..old(self)@ }));
        }
        Some(frame)
    }

    /// Drops every pending notification.
    pub fn notify_clear(&mut self)
        requires
            old(self).wf(),
        ensures
            final(self).wf(),
            final(self)@ == (StoreV { notifs: Seq::empty(), ..old(self)@ }),
    {
        self.notifs.clear();
        proof {
            assert(crate::store::notifs_view(self.notifs@) =~= Seq::<(u8, Seq<u8>, u64)>::empty());
            assert(self@ =~= (StoreV { notifs: Seq::empty(), ..old(self)@ }));
        }
    }
}

/// Dropping the id of the pair that stands at `ix` removes exactly that
/// pair, when ids are distinct.
proof fn lemma_subs_without_at(subs: Seq<SubV>, id: u64, ix: int)
    requires
        0 <= ix < subs.len(),
        subs[ix].id == id,
        forall|a: int, b: int|
            0 <= a < b < subs.len() ==> (#[trigger] subs[a]).id != (#[trigger] subs[b]).id,
    ensures
        subs_without(subs, id) == subs.subrange(0, ix) + subs.subrange(
            ix + 1,
            subs.len() as int,
        ),
    decreases subs.len(),
{
    assert(forall|i: int|
        0 <= i < subs.drop_last().len() ==> #[trigger] subs.drop_last()[i] == subs[i]);
    if ix == subs.len() - 1 {
        lemma_subs_without_absent(subs.drop_last(), id);
        assert(subs_without(subs, id) =~= subs.subrange(0, ix) + subs.subrange(
            ix + 1,
            subs.len() as int,
        ));
    } else {
        lemma_subs_without_at(subs.drop_last(), id, ix);
        assert(subs.last().id != id);
        assert(subs_without(subs, id) =~= subs.subrange(0, ix) + subs.subrange(
            ix + 1,
            subs.len() as int,
        ));
    }
}

/// Dropping an id nobody carries changes nothing.
proof fn lemma_subs_without_absent(subs: Seq<SubV>, id: u64)
    requires
        forall|q: int| 0 <= q < subs.len() ==> (#[trigger] subs[q]).id != id,
    ensures
        subs_without(subs, id) == subs,
    decreases subs.len(),
{
    if subs.len() > 0 {
        assert(forall|i: int|
            0 <= i < subs.drop_last().len() ==> #[trigger] subs.drop_last()[i] == subs[i]);
        lemma_subs_without_absent(subs.drop_last(), id);
        assert(subs_without(subs, id) =~= subs);
    } else {
        assert(subs_without(subs, id) =~= subs);
    }
}

} // verus!
