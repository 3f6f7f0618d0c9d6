//! Clearing, the append-only-log controls, and replay: decode one record
//! at a time and apply it to the store in place, without writing further
//! records; a malformed tail ends replay cleanly.
use vstd::prelude::*;

use crate::aof::{dec_at, enc, rec_v, RecE, RecV};
use crate::index::NumIndex;
use crate::store::{index_entry_ok, sv_log, Store, StoreV};

verus! {

/// Clearing drops every entry of both namespaces and empties every
/// index; the log, notifications, subscribers and counters stay.
pub open spec fn sv_clear_core(s: StoreV) -> StoreV {
    StoreV {
        strs: Seq::empty(),
        bins: Seq::empty(),
        indexes: Seq::new(s.indexes.len(), |q: int| (s.indexes[q].0, Seq::empty())),
        ..s
    }
}

pub open spec fn sv_clear(s: StoreV) -> StoreV {
    sv_log(sv_clear_core(s), enc(RecV::Clear))
}

/// Applying one replayed record: the same state change as the operation
/// that wrote it, with the log left alone (replay runs with the log
/// disabled). Binary keys too long for a notification name are skipped.
pub open spec fn sv_apply(s: StoreV, r: RecV, now: u64) -> StoreV {
    match r {
        RecV::SetS(k, v) => crate::ops_bytes::sv_set(s, k, v, now),
        RecV::Remove(k) => crate::ops_bytes::sv_remove(s, k, now),
        RecV::Clear => sv_clear(s),
        RecV::Expire(k, t) => crate::ops_bytes::sv_expire(s, k, t, now),
        RecV::Hset(k, f, v) => crate::ops_coll::sv_hset(s, k, f, v, now),
        RecV::Lpush(k, v) => crate::ops_coll::sv_lpush(s, k, v, now),
        RecV::Sadd(k, v) => crate::ops_coll::sv_sadd(s, k, v, now),
        RecV::Zadd(k, sc, m) => crate::ops_coll::sv_zadd(s, k, sc as i64, m, now),
        RecV::Xadd(k, id, p) => if id < u64::MAX {
            sv_log(crate::ops_coll::sv_xadd_at(s, k, id, p, now), enc(RecV::Xadd(k, id, p)))
        } else {
            s
        },
        RecV::SetB(k, v) => if k.len() <= 0x7fff_fffe {
            crate::ops_bytes::sv_set_b(s, k, v, now)
        } else {
            s
        },
        RecV::RemoveB(k) => if k.len() <= 0x7fff_fffe {
            crate::ops_bytes::sv_remove_b(s, k, now)
        } else {
            s
        },
    }
}

/// Replay from position `i`: apply records until the bytes run out or a
/// record is malformed.
pub open spec fn sv_replay(s: StoreV, b: Seq<u8>, i: int, now: u64) -> StoreV
    decreases b.len() - i,
{
    match dec_at(b, i) {
        Some((r, p)) => if i < p <= b.len() {
            sv_replay(sv_apply(s, r, now), b, p, now)
        } else {
            s
        },
        None => s,
    }
}

impl Store {
    /// Drops every entry of both namespaces; the clearing is logged.
    pub fn clear_all(&mut self)
        requires
            old(self).wf(),
        ensures
            final(self).wf(),
            final(self)@ == sv_clear(old(self)@),
    {
        let ghost s0 = self@;
        self.strs.clear();
        self.bins.clear();
        let mut i: usize = 0;
        let ghost iv0 = crate::index::ixs_view(self.indexes@);
        while i < self.indexes.len()
            invariant
                i <= self.indexes@.len(),
                self.indexes@.len() == iv0.len(),
                iv0 == s0.indexes,
                self.strs.wf(),
                self.bins.wf(),
                self.bins.cap == self.strs.cap,
                self@ == (StoreV { indexes: crate::index::ixs_view(self.indexes@), ..sv_clear_core(s0) }),
                forall|q: int|
                    i <= q < iv0.len() ==> #[trigger] crate::index::ixs_view(self.indexes@)[q]
                        == iv0[q],
                forall|q: int|
                    0 <= q < i ==> #[trigger] crate::index::ixs_view(self.indexes@)[q] == (
                        iv0[q].0,
                        Seq::<(i64, Seq<u8>)>::empty(),
                    ),
            decreases self.indexes.len() - i,
        {
            let ghost pre = self.indexes@;
            let ni = self.indexes.remove(i);
            self.indexes.insert(i, NumIndex { field: ni.field, pairs: Vec::new() });
            i += 1;
            proof {
                assert(self.indexes@ =~= pre.update(i - 1, self.indexes@[i - 1]));
                assert(crate::index::ixs_view(pre)[i - 1] == iv0[i - 1]);
                assert forall|q: int|
                    0 <= q < self.indexes@.len() && q != i - 1 implies #[trigger] crate::index::ixs_view(
                    self.indexes@,
                )[q] == crate::index::ixs_view(pre)[q] by {
                    assert(self.indexes@[q] == pre[q]);
                }
                assert(crate::index::pview(self.indexes@[i - 1].pairs@) =~= Seq::<
                    (i64, Seq<u8>),
                >::empty());
            }
        }
        proof {
            assert(self@ =~= sv_clear_core(s0));
            assert(crate::store::sv_wf(self@)) by {
                assert forall|fi: int|
                    0 <= fi < self@.indexes.len() implies index_entry_ok(
                    self@.strs,
                    (#[trigger] self@.indexes[fi]).0,
                    self@.indexes[fi].1,
                ) by {
                    assert(self@.indexes[fi].1 =~= Seq::<(i64, Seq<u8>)>::empty());
                }
            }
        }
        let rec = RecE::Clear;
        self.log_record(&rec);
    }

    /// Starts logging into a fresh in-memory buffer; the embedding
    /// drains it to the log file.
    pub fn aof_enable(&mut self)
        requires
            old(self).wf(),
        ensures
            final(self).wf(),
            final(self)@ == (StoreV { aof: Some(Seq::<u8>::empty()), ..old(self)@ }),
    {
        self.aof = Some(Vec::new());
        proof {
            assert(self@ =~= (StoreV { aof: Some(Seq::<u8>::empty()), ..old(self)@ }));
        }
    }

    /// Stops logging; returns the bytes not yet drained.
    pub fn aof_disable(&mut self) -> (r: Option<Vec<u8>>)
        requires
            old(self).wf(),
        ensures
            final(self).wf(),
            final(self)@ == (StoreV { aof: None, ..old(self)@ }),
            match r {
                Some(b) => old(self)@.aof == Some(b@),
                None => old(self)@.aof is None,
            },
    {
        let r = self.aof.take();
        proof {
            assert(self@ =~= (StoreV { aof: None, ..old(self)@ }));
        }
        r
    }

    /// Hands out the logged bytes gathered so far and leaves the log
    /// enabled and empty; `None` when the log is disabled.
    pub fn aof_drain(&mut self) -> (r: Option<Vec<u8>>)
        requires
            old(self).wf(),
        ensures
            final(self).wf(),
            match r {
                Some(b) => old(self)@.aof == Some(b@) && final(self)@ == (StoreV {
                    aof: Some(Seq::<u8>::empty()),
                    ..old(self)@
                }),
                None => old(self)@.aof is None && final(self)@ == old(self)@,
            },
    {
        let cur = self.aof.take();
        match cur {
            Some(b) => {
                self.aof = Some(Vec::new());
                proof {
                    assert(self@ =~= (StoreV { aof: Some(Seq::<u8>::empty()), ..old(self)@ }));
                }
                Some(b)
            },
            None => {
                self.aof = None;
                proof {
                    assert(self@ =~= old(self)@);
                }
                None
            },
        }
    }

    /// Applies one replayed record.
    fn apply_record(&mut self, r: RecE, now: u64)
        requires
            old(self).wf(),
            old(self)@.aof is None,
            crate::aof::rec_wf(rec_v(r)),
        ensures
            final(self).wf(),
            final(self)@ == sv_apply(old(self)@, rec_v(r), now),
            final(self)@.aof is None,
    {
        match r {
            RecE::SetS(k, v) => self.set(k, v, now),
            RecE::Remove(k) => {
                let _ = self.remove(&k, now);
            },
            RecE::Clear => self.clear_all(),
            RecE::Expire(k, t) => {
                let _ = self.expire(&k, t, now);
            },
            RecE::Hset(k, f, v) => self.hset(&k, &f, &v, now),
            RecE::Lpush(k, v) => self.lpush(&k, &v, now),
            RecE::Sadd(k, v) => {
                let _ = self.sadd(&k, &v, now);
            },
            RecE::Zadd(k, sc, m) => self.zadd(&k, sc as i64, &m, now),
            RecE::Xadd(k, id, p) => {
                if id < u64::MAX {
                    self.xadd_at(&k, id, &p, now);
                }
            },
            RecE::SetB(k, v) => {
                if k.len() <= 0x7fff_fffe {
                    self.set_b(k, v, now);
                }
            },
            RecE::RemoveB(k) => {
                if k.len() <= 0x7fff_fffe {
                    let _ = self.remove_b(&k, now);
                }
            },
        }
    }

    /// Replays a log byte stream into the store. Replay never writes
    /// further records; a truncated or malformed tail ends it cleanly.
    #[verifier::rlimit(60)]
    pub fn aof_load(&mut self, bytes: &Vec<u8>, now: u64)
        requires
            old(self).wf(),
        ensures
            final(self).wf(),
            final(self)@ == (StoreV {
                aof: old(self)@.aof,
                ..sv_replay(
                    StoreV { aof: None, ..old(self)@ },
                    bytes@,
                    0,
                    now,
                )
            }),
    {
        let saved = self.aof.take();
        let ghost base = self@;
        let ghost saved_v = old(self)@.aof;
        let mut i: usize = 0;
        proof {
            assert(self@ =~= (StoreV { aof: None, ..old(self)@ }));
        }
        while i < bytes.len()
            invariant
                i <= bytes.len(),
                self.wf(),
                self@.aof is None,
                base == (StoreV { aof: None, ..old(self)@ }),
                (match saved {
                    Some(b) => saved_v == Some(b@),
                    None => saved_v is None,
                }),
                saved_v == old(self)@.aof,
                sv_replay(base, bytes@, 0, now) == sv_replay(self@, bytes@, i as int, now),
            decreases bytes.len() - i,
        {
            let ghost pre = self@;
            let ghost i0 = i as int;
            match crate::aof::decode_at(bytes, i) {
                Some((rec, p)) => {
                    self.apply_record(rec, now);
                    proof {
                        assert(sv_replay(pre, bytes@, i0, now) == sv_replay(
                            self@,
                            bytes@,
                            p as int,
                            now,
                        ));
                    }
                    i = p;
                },
                None => {
                    proof {
                        assert(sv_replay(self@, bytes@, i as int, now) == self@);
                    }
                    self.aof = saved;
                    proof {
                        assert(self@ =~= (StoreV {
                            aof: old(self)@.aof,
                            ..sv_replay(StoreV { aof: None, ..old(self)@ }, bytes@, 0, now)
                        }));
                    }
                    return ;
                },
            }
        }
        proof {
            assert(dec_at(bytes@, i as int) is None);
            assert(sv_replay(self@, bytes@, i as int, now) == self@);
        }
        self.aof = saved;
        proof {
            assert(self@ =~= (StoreV {
                aof: old(self)@.aof,
                ..sv_replay(StoreV { aof: None, ..old(self)@ }, bytes@, 0, now)
            }));
        }
    }

    /// Applies a stream entry under an explicit id, as replay does:
    /// appended only when the id grows the stream, and the ordinal
    /// counter is raised past it.
    fn xadd_at(&mut self, k: &Vec<u8>, id: u64, p: &Vec<u8>, now: u64)
        requires
            old(self).wf(),
            k@.len() <= 0xffff_ffff,
            p@.len() <= 0xffff_ffff,
            id < u64::MAX,
        ensures
            final(self).wf(),
            final(self)@ == sv_log(
                crate::ops_coll::sv_xadd_at(old(self)@, k@, id, p@, now),
                enc(RecV::Xadd(k@, id, p@)),
            ),
    {
        let rec = RecE::Xadd(crate::value::clone_bytes(k), id, crate::value::clone_bytes(p));
        self.reap_str(k, now);
        let ghost s1 = self@;
        let cur: Option<crate::value::Entry> = match self.strs.peek(k) {
            Some(e) => Some(e.duplicate()),
            None => None,
        };
        proof {
            if crate::lru::lookup(s1.strs, k@) is Some {
                crate::lru::lemma_lookup_absent(s1.strs, k@);
                let kidx = choose|i: int| 0 <= i < s1.strs.len() && (#[trigger] s1.strs[i]).0 == k@;
                crate::lru::lemma_lookup_at(s1.strs, k@, kidx);
                assert(crate::store::entries_wf(s1.strs) && 0 <= kidx < s1.strs.len());
                assert(crate::store::streams_bounded(s1.strs, s1.stream_ctr) && 0 <= kidx
                    < s1.strs.len());
            }
        }
        let (nx, dl): (Vec<(u64, Vec<u8>)>, Option<u64>) = match cur {
            Some(e) => {
                let dl = e.deadline;
                match e.value {
                    crate::value::Value::Stream(x) => {
                        let mut out = crate::value::clone_scored(&x);
                        if out.len() < 0xffff_ffff && (out.len() == 0 || out[out.len() - 1].0
                            < id) {
                            let ghost pre = out@;
                            out.push((id, crate::value::clone_bytes(p)));
                            proof {
                                assert(crate::value::scored_view(out@)
                                    =~= crate::value::scored_view(pre).push((id, p@)));
                            }
                        }
                        (out, dl)
                    },
                    _ => {
                        let mut out: Vec<(u64, Vec<u8>)> = Vec::new();
                        out.push((id, crate::value::clone_bytes(p)));
                        proof {
                            assert(crate::value::scored_view(out@) =~= seq![(id, p@)]);
                        }
                        (out, dl)
                    },
                }
            },
            None => {
                let mut out: Vec<(u64, Vec<u8>)> = Vec::new();
                out.push((id, crate::value::clone_bytes(p)));
                proof {
                    assert(crate::value::scored_view(out@) =~= seq![(id, p@)]);
                }
                (out, None)
            },
        };
        let nctr: u64 = if id == u64::MAX {
            u64::MAX
        } else if self.stream_ctr > id + 1 {
            self.stream_ctr
        } else {
            id + 1
        };
        self.stream_ctr = nctr;
        proof {
            assert(crate::store::sv_wf(self@)) by {
                assert(crate::store::streams_bounded(self@.strs, self@.stream_ctr)) by {
                    assert(forall|q: int|
                        0 <= q < s1.strs.len() ==> s1.strs[q] == (#[trigger] self@.strs[q]));
                }
                assert(crate::store::streams_bounded(self@.bins, self@.stream_ctr)) by {
                    assert(forall|q: int|
                        0 <= q < s1.bins.len() ==> s1.bins[q] == (#[trigger] self@.bins[q]));
                }
            }
            assert forall|j: int|
                0 <= j < crate::value::scored_view(nx@).len() implies (
            #[trigger] crate::value::scored_view(nx@)[j]).0 < self@.stream_ctr by {
                if crate::lru::lookup(s1.strs, k@) is Some {
                    let kidx = choose|i: int|
                        0 <= i < s1.strs.len() && (#[trigger] s1.strs[i]).0 == k@;
                }
            }
            assert(crate::value::entry_wf(
                crate::value::EntryV {
                    value: crate::value::ValueV::Stream(crate::value::scored_view(nx@)),
                    deadline: dl,
                },
            ));
        }
        self.put_str(
            crate::value::clone_bytes(k),
            crate::value::Entry { value: crate::value::Value::Stream(nx), deadline: dl },
            now,
        );
        self.log_record(&rec);
        proof {
            assert(self@ =~= sv_log(
                crate::ops_coll::sv_xadd_at(old(self)@, k@, id, p@, now),
                enc(RecV::Xadd(k@, id, p@)),
            ));
        }
    }
}

} // verus!
