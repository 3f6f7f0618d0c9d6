//! The collection operations: hashes, lists, sets, sorted sets and
//! streams, over the string namespace.
use vstd::prelude::*;

use crate::aof::{enc, rec_v, RecE, RecV};
use crate::frames::{build_items_frame, build_pairs_frame, build_stream_frame};
use crate::index::{ins_pair, pairs_without};
use crate::lru::lookup;
use crate::store::{sv_log, sv_put_str, sv_reap_str, sv_touch_str, Store, StoreV};
use crate::value::{
    bytes_seq_view, clone_bytes, clone_ipairs, clone_list, clone_pairs, clone_scored,
    entry_wf, pairs_view, scored_view, Entry, EntryV, Value, ValueV,
};

verus! {

/// Whether the hash holds the field.
pub open spec fn hash_has(h: Seq<(Seq<u8>, Seq<u8>)>, f: Seq<u8>) -> bool {
    exists|i: int| 0 <= i < h.len() && (#[trigger] h[i]).0 == f
}

/// The first value stored under the field.
pub open spec fn hash_get(h: Seq<(Seq<u8>, Seq<u8>)>, f: Seq<u8>) -> Option<Seq<u8>>
    decreases h.len(),
{
    if h.len() == 0 {
        None
    } else if h[0].0 == f {
        Some(h[0].1)
    } else {
        hash_get(h.drop_first(), f)
    }
}

/// Replaces the first pair under the field, or appends one.
pub open spec fn hash_set(h: Seq<(Seq<u8>, Seq<u8>)>, f: Seq<u8>, v: Seq<u8>) -> Seq<
    (Seq<u8>, Seq<u8>),
>
    decreases h.len(),
{
    if h.len() == 0 {
        seq![(f, v)]
    } else if h[0].0 == f {
        seq![(f, v)] + h.drop_first()
    } else {
        seq![h[0]] + hash_set(h.drop_first(), f, v)
    }
}

proof fn lemma_hash_set_found(h: Seq<(Seq<u8>, Seq<u8>)>, f: Seq<u8>, v: Seq<u8>, ix: int)
    requires
        0 <= ix < h.len(),
        h[ix].0 == f,
        forall|q: int| 0 <= q < ix ==> (#[trigger] h[q]).0 != f,
    ensures
        hash_set(h, f, v) == h.update(ix, (f, v)),
    decreases h.len(),
{
    if ix == 0 {
        assert(hash_set(h, f, v) =~= h.update(0, (f, v)));
    } else {
        assert(forall|q: int|
            0 <= q < h.drop_first().len() ==> #[trigger] h.drop_first()[q] == h[q + 1]);
        lemma_hash_set_found(h.drop_first(), f, v, ix - 1);
        assert(hash_set(h, f, v) =~= h.update(ix, (f, v)));
    }
}

proof fn lemma_hash_set_absent(h: Seq<(Seq<u8>, Seq<u8>)>, f: Seq<u8>, v: Seq<u8>)
    requires
        forall|q: int| 0 <= q < h.len() ==> (#[trigger] h[q]).0 != f,
    ensures
        hash_set(h, f, v) == h.push((f, v)),
    decreases h.len(),
{
    if h.len() == 0 {
        assert(hash_set(h, f, v) =~= h.push((f, v)));
    } else {
        assert(forall|q: int|
            0 <= q < h.drop_first().len() ==> #[trigger] h.drop_first()[q] == h[q + 1]);
        lemma_hash_set_absent(h.drop_first(), f, v);
        assert(hash_set(h, f, v) =~= h.push((f, v)));
    }
}

/// The position of the first pair under the field.
fn find_field(h: &Vec<(Vec<u8>, Vec<u8>)>, f: &Vec<u8>) -> (r: Option<usize>)
    ensures
        match r {
            Some(ix) => ix < h.len() && pairs_view(h@)[ix as int].0 == f@ && hash_get(
                pairs_view(h@),
                f@,
            ) == Some(pairs_view(h@)[ix as int].1) && (forall|q: int|
                0 <= q < ix ==> (#[trigger] pairs_view(h@)[q]).0 != f@),
            None => hash_get(pairs_view(h@), f@) is None && !hash_has(pairs_view(h@), f@),
        },
{
    let ghost full = pairs_view(h@);
    let mut k: usize = 0;
    proof {
        assert(full.skip(0) =~= full);
    }
    while k < h.len()
        invariant
            k <= h.len(),
            full == pairs_view(h@),
            hash_get(full, f@) == hash_get(full.skip(k as int), f@),
            forall|q: int| 0 <= q < k ==> (#[trigger] full[q]).0 != f@,
        decreases h.len() - k,
    {
        if crate::value::bytes_eq(&h[k].0, f) {
            proof {
                assert(full.skip(k as int)[0] == full[k as int]);
            }
            return Some(k);
        }
        proof {
            assert(full.skip(k as int)[0] == full[k as int]);
            assert(full.skip(k as int).drop_first() =~= full.skip(k as int + 1));
        }
        k += 1;
    }
    proof {
        assert(full.skip(h.len() as int) =~= Seq::<(Seq<u8>, Seq<u8>)>::empty());
        if hash_has(full, f@) {
            let i = choose|i: int| 0 <= i < full.len() && (#[trigger] full[i]).0 == f@;
        }
    }
    None
}

/// The hash value after an hset, with its kept deadline.
pub open spec fn sv_hset_core(s: StoreV, k: Seq<u8>, f: Seq<u8>, v: Seq<u8>, now: u64) -> StoreV {
    let s1 = sv_reap_str(s, k, now);
    let nh: Seq<(Seq<u8>, Seq<u8>)> = match lookup(s1.strs, k) {
        Some(e) => match e.value {
            ValueV::Hash(h) => if h.len() >= 0xffff_ffff && !hash_has(h, f) {
                h
            } else {
                hash_set(h, f, v)
            },
            _ => seq![(f, v)],
        },
        None => seq![(f, v)],
    };
    let dl: Option<u64> = match lookup(s1.strs, k) {
        Some(e) => e.deadline,
        None => None,
    };
    sv_put_str(s1, k, EntryV { value: ValueV::Hash(nh), deadline: dl }, now)
}

pub open spec fn sv_hset(s: StoreV, k: Seq<u8>, f: Seq<u8>, v: Seq<u8>, now: u64) -> StoreV {
    sv_log(sv_hset_core(s, k, f, v, now), enc(RecV::Hset(k, f, v)))
}

impl Store {
    /// Stores one hash field; a non-hash value under the key is
    /// replaced. The write is logged.
    pub fn hset(&mut self, k: &Vec<u8>, f: &Vec<u8>, v: &Vec<u8>, now: u64)
        requires
            old(self).wf(),
            k@.len() <= 0xffff_ffff,
            f@.len() <= 0xffff_ffff,
            v@.len() <= 0xffff_ffff,
        ensures
            final(self).wf(),
            final(self)@ == sv_hset(old(self)@, k@, f@, v@, now),
    {
        let rec = RecE::Hset(clone_bytes(k), clone_bytes(f), clone_bytes(v));
        self.reap_str(k, now);
        let ghost s1 = self@;
        let cur: Option<Entry> = match self.strs.peek(k) {
            Some(e) => Some(e.duplicate()),
            None => None,
        };
        proof {
            if lookup(s1.strs, k@) is Some {
                crate::lru::lemma_lookup_absent(s1.strs, k@);
                let kidx = choose|i: int| 0 <= i < s1.strs.len() && (#[trigger] s1.strs[i]).0 == k@;
                crate::lru::lemma_lookup_at(s1.strs, k@, kidx);
                assert(crate::store::entries_wf(s1.strs) && 0 <= kidx < s1.strs.len());
            }
        }
        let (nh, dl): (Vec<(Vec<u8>, Vec<u8>)>, Option<u64>) = match cur {
            Some(e) => {
                let dl = e.deadline;
                match e.value {
                    Value::Hash(h) => {
                        let mut out = clone_pairs(&h);
                        match find_field(&out, f) {
                            Some(ix) => {
                                proof {
                                    lemma_hash_set_found(
                                        pairs_view(out@),
                                        f@,
                                        v@,
                                        ix as int,
                                    );
                                }
                                let ghost pre = out@;
                                let _old = out.remove(ix);
                                out.insert(ix, (clone_bytes(f), clone_bytes(v)));
                                proof {
                                    assert(out@ =~= pre.update(ix as int, out@[ix as int]));
                                    assert(pairs_view(out@) =~= hash_set(
                                        pairs_view(pre),
                                        f@,
                                        v@,
                                    ));
                                }
                                (out, dl)
                            },
                            None => {
                                if out.len() < 0xffff_ffff {
                                    proof {
                                        lemma_hash_set_absent(pairs_view(out@), f@, v@);
                                    }
                                    let ghost pre = out@;
                                    out.push((clone_bytes(f), clone_bytes(v)));
                                    proof {
                                        assert(pairs_view(out@) =~= hash_set(
                                            pairs_view(pre),
                                            f@,
                                            v@,
                                        ));
                                    }
                                }
                                (out, dl)
                            },
                        }
                    },
                    _ => {
                        let mut out: Vec<(Vec<u8>, Vec<u8>)> = Vec::new();
                        out.push((clone_bytes(f), clone_bytes(v)));
                        proof {
                            assert(pairs_view(out@) =~= seq![(f@, v@)]);
                        }
                        (out, dl)
                    },
                }
            },
            None => {
                let mut out: Vec<(Vec<u8>, Vec<u8>)> = Vec::new();
                out.push((clone_bytes(f), clone_bytes(v)));
                proof {
                    assert(pairs_view(out@) =~= seq![(f@, v@)]);
                }
                (out, None)
            },
        };
        proof {
            let nhv = pairs_view(nh@);
            assert(entry_wf(EntryV { value: ValueV::Hash(nhv), deadline: dl }));
        }
        self.put_str(
            clone_bytes(k),
            Entry { value: Value::Hash(nh), deadline: dl },
            now,
        );
        self.log_record(&rec);
        proof {
            assert(self@ =~= sv_hset(old(self)@, k@, f@, v@, now));
        }
    }

    /// Reads one hash field; the read marks the key most recently used.
    pub fn hget(&mut self, k: &Vec<u8>, f: &Vec<u8>, now: u64) -> (r: Option<Vec<u8>>)
        requires
            old(self).wf(),
            k@.len() <= 0xffff_ffff,
        ensures
            final(self).wf(),
            final(self)@ == sv_touch_str(old(self)@, k@, now),
            ({
                let found = lookup(sv_reap_str(old(self)@, k@, now).strs, k@);
                match found {
                    Some(e) => match e.value {
                        ValueV::Hash(h) => match r {
                            Some(b) => hash_get(h, f@) == Some(b@),
                            None => hash_get(h, f@) is None,
                        },
                        _ => r is None,
                    },
                    None => r is None,
                }
            }),
    {
        match self.touch_str(k, now) {
            Some(e) => match e.value {
                Value::Hash(h) => match find_field(&h, f) {
                    Some(ix) => Some(clone_bytes(&h[ix].1)),
                    None => None,
                },
                _ => None,
            },
            None => None,
        }
    }

    /// Dumps a hash as a frame; a missing or non-hash key reads as
    /// empty.
    pub fn hgetall(&mut self, k: &Vec<u8>, now: u64) -> (r: Vec<u8>)
        requires
            old(self).wf(),
            k@.len() <= 0xffff_ffff,
        ensures
            final(self).wf(),
            final(self)@ == sv_touch_str(old(self)@, k@, now),
            ({
                let found = lookup(sv_reap_str(old(self)@, k@, now).strs, k@);
                match found {
                    Some(e) => match e.value {
                        ValueV::Hash(h) => r@ == crate::frames::pairs_frame(h),
                        _ => r@ == Seq::<u8>::empty(),
                    },
                    None => r@ == Seq::<u8>::empty(),
                }
            }),
    {
        match self.touch_str(k, now) {
            Some(e) => {
                let ghost ev = e@;
                match e.value {
                    Value::Hash(h) => {
                        proof {
                            assert(crate::store::entries_wf(self@.strs));
                            assert(self@.strs[0].1 == ev);
                            assert(ev.value == ValueV::Hash(pairs_view(h@)));
                            assert(crate::value::value_wf(ValueV::Hash(pairs_view(h@))));
                            assert forall|q: int|
                                0 <= q < h@.len() implies (#[trigger] h@[q]).0@.len()
                                <= 0xffff_ffff && h@[q].1@.len() <= 0xffff_ffff by {
                                assert(pairs_view(h@)[q] == (h@[q].0@, h@[q].1@));
                            }
                        }
                        build_pairs_frame(&h)
                    },
                    _ => Vec::new(),
                }
            },
            None => Vec::new(),
        }
    }
}

/// The list value after an lpush: the payload becomes the head.
pub open spec fn sv_lpush_core(s: StoreV, k: Seq<u8>, v: Seq<u8>, now: u64) -> StoreV {
    let s1 = sv_reap_str(s, k, now);
    let nl: Seq<Seq<u8>> = match lookup(s1.strs, k) {
        Some(e) => match e.value {
            ValueV::List(l) => if l.len() >= 0xffff_ffff {
                l
            } else {
                seq![v] + l
            },
            _ => seq![v],
        },
        None => seq![v],
    };
    let dl: Option<u64> = match lookup(s1.strs, k) {
        Some(e) => e.deadline,
        None => None,
    };
    sv_put_str(s1, k, EntryV { value: ValueV::List(nl), deadline: dl }, now)
}

pub open spec fn sv_lpush(s: StoreV, k: Seq<u8>, v: Seq<u8>, now: u64) -> StoreV {
    sv_log(sv_lpush_core(s, k, v, now), enc(RecV::Lpush(k, v)))
}

/// The state after an rpop: a nonempty list loses its tail; anything
/// else is left as the lazy expiry left it.
pub open spec fn sv_rpop_core(s: StoreV, k: Seq<u8>, now: u64) -> StoreV {
    let s1 = sv_reap_str(s, k, now);
    match lookup(s1.strs, k) {
        Some(e) => match e.value {
            ValueV::List(l) => if l.len() > 0 {
                sv_put_str(
                    s1,
                    k,
                    EntryV { value: ValueV::List(l.drop_last()), deadline: e.deadline },
                    now,
                )
            } else {
                s1
            },
            _ => s1,
        },
        None => s1,
    }
}

/// What an rpop returns: the tail of a nonempty stored list.
pub open spec fn rpop_result(strs: crate::lru::Assoc, k: Seq<u8>) -> Option<Seq<u8>> {
    match lookup(strs, k) {
        Some(e) => match e.value {
            ValueV::List(l) => if l.len() > 0 {
                Some(l.last())
            } else {
                None
            },
            _ => None,
        },
        None => None,
    }
}

/// A rank range resolved against a length: negative ranks count from the
/// end, then both ends are clamped.
pub open spec fn range_lo(len: int, start: int) -> int {
    let a = if start < 0 {
        start + len
    } else {
        start
    };
    if a < 0 {
        0
    } else {
        a
    }
}

pub open spec fn range_hi(len: int, stop: int) -> int {
    let b = if stop < 0 {
        stop + len
    } else {
        stop
    };
    if b > len - 1 {
        len - 1
    } else {
        b
    }
}

/// The items a rank range selects.
pub open spec fn rank_slice<A>(l: Seq<A>, start: int, stop: int) -> Seq<A> {
    let a = range_lo(l.len() as int, start);
    let b = range_hi(l.len() as int, stop);
    if a > b {
        Seq::empty()
    } else {
        l.subrange(a, b + 1)
    }
}

/// Whether the set holds the member.
pub open spec fn set_has(s: Seq<Seq<u8>>, v: Seq<u8>) -> bool {
    exists|i: int| 0 <= i < s.len() && s[i] == v
}

/// The set value after an sadd.
pub open spec fn sv_sadd_core(s: StoreV, k: Seq<u8>, v: Seq<u8>, now: u64) -> StoreV {
    let s1 = sv_reap_str(s, k, now);
    let ns: Seq<Seq<u8>> = match lookup(s1.strs, k) {
        Some(e) => match e.value {
            ValueV::SetVal(m) => if set_has(m, v) || m.len() >= 0xffff_ffff {
                m
            } else {
                m.push(v)
            },
            _ => seq![v],
        },
        None => seq![v],
    };
    let dl: Option<u64> = match lookup(s1.strs, k) {
        Some(e) => e.deadline,
        None => None,
    };
    sv_put_str(s1, k, EntryV { value: ValueV::SetVal(ns), deadline: dl }, now)
}

pub open spec fn sv_sadd(s: StoreV, k: Seq<u8>, v: Seq<u8>, now: u64) -> StoreV {
    sv_log(sv_sadd_core(s, k, v, now), enc(RecV::Sadd(k, v)))
}

/// Whether the sorted set holds the member.
pub open spec fn zhas(z: Seq<(i64, Seq<u8>)>, m: Seq<u8>) -> bool {
    exists|i: int| 0 <= i < z.len() && (#[trigger] z[i]).1 == m
}

/// The sorted set after a zadd: the member's former score goes, and the
/// member is placed by its new score.
pub open spec fn zput(z: Seq<(i64, Seq<u8>)>, sc: i64, m: Seq<u8>) -> Seq<(i64, Seq<u8>)> {
    if !zhas(z, m) && z.len() >= 0xffff_ffff {
        z
    } else {
        ins_pair(pairs_without(z, m), sc, m)
    }
}

pub open spec fn sv_zadd_core(s: StoreV, k: Seq<u8>, sc: i64, m: Seq<u8>, now: u64) -> StoreV {
    let s1 = sv_reap_str(s, k, now);
    let nz: Seq<(i64, Seq<u8>)> = match lookup(s1.strs, k) {
        Some(e) => match e.value {
            ValueV::SortedSet(z) => zput(z, sc, m),
            _ => seq![(sc, m)],
        },
        None => seq![(sc, m)],
    };
    let dl: Option<u64> = match lookup(s1.strs, k) {
        Some(e) => e.deadline,
        None => None,
    };
    sv_put_str(s1, k, EntryV { value: ValueV::SortedSet(nz), deadline: dl }, now)
}

pub open spec fn sv_zadd(s: StoreV, k: Seq<u8>, sc: i64, m: Seq<u8>, now: u64) -> StoreV {
    sv_log(sv_zadd_core(s, k, sc, m, now), enc(RecV::Zadd(k, sc as u64, m)))
}

/// The members of a sorted set, score ascending.
pub open spec fn zmembers(z: Seq<(i64, Seq<u8>)>) -> Seq<Seq<u8>> {
    Seq::new(z.len(), |i: int| z[i].1)
}

/// Applying one stream entry with a given id: appended only when the id
/// grows the stream, and the ordinal counter is raised past it.
pub open spec fn sv_xadd_at(s: StoreV, k: Seq<u8>, id: u64, p: Seq<u8>, now: u64) -> StoreV {
    let s1 = sv_reap_str(s, k, now);
    let nx: Seq<(u64, Seq<u8>)> = match lookup(s1.strs, k) {
        Some(e) => match e.value {
            ValueV::Stream(x) => if x.len() < 0xffff_ffff && (x.len() == 0 || x.last().0 < id) {
                x.push((id, p))
            } else {
                x
            },
            _ => seq![(id, p)],
        },
        None => seq![(id, p)],
    };
    let dl: Option<u64> = match lookup(s1.strs, k) {
        Some(e) => e.deadline,
        None => None,
    };
    let nctr: u64 = if id == u64::MAX {
        u64::MAX
    } else if s1.stream_ctr > id + 1 {
        s1.stream_ctr
    } else {
        (id + 1) as u64
    };
    let s2 = StoreV { stream_ctr: nctr, ..s1 };
    sv_put_str(s2, k, EntryV { value: ValueV::Stream(nx), deadline: dl }, now)
}

/// A normal xadd draws the next ordinal; an exhausted counter makes the
/// call a no-op that returns id 0.
pub open spec fn sv_xadd(s: StoreV, k: Seq<u8>, p: Seq<u8>, now: u64) -> StoreV {
    if s.stream_ctr == u64::MAX {
        s
    } else {
        sv_log(sv_xadd_at(s, k, s.stream_ctr, p, now), enc(RecV::Xadd(k, s.stream_ctr, p)))
    }
}

/// The stream entries with `lo <= id <= hi`.
pub open spec fn xslice(x: Seq<(u64, Seq<u8>)>, lo: u64, hi: u64) -> Seq<(u64, Seq<u8>)>
    decreases x.len(),
{
    if x.len() == 0 {
        Seq::empty()
    } else if lo <= x.last().0 <= hi {
        xslice(x.drop_last(), lo, hi) + seq![x.last()]
    } else {
        xslice(x.drop_last(), lo, hi)
    }
}

/// Membership in a set, executable.
fn contains_bytes(s: &Vec<Vec<u8>>, v: &Vec<u8>) -> (r: bool)
    ensures
        r == set_has(bytes_seq_view(s@), v@),
{
    let mut i: usize = 0;
    while i < s.len()
        invariant
            i <= s.len(),
            forall|q: int| 0 <= q < i ==> bytes_seq_view(s@)[q] != v@,
        decreases s.len() - i,
    {
        if crate::value::bytes_eq(&s[i], v) {
            proof {
                assert(bytes_seq_view(s@)[i as int] == v@);
            }
            return true;
        }
        i += 1;
    }
    proof {
        if set_has(bytes_seq_view(s@), v@) {
            let q = choose|q: int|
                0 <= q < bytes_seq_view(s@).len() && bytes_seq_view(s@)[q] == v@;
        }
    }
    false
}

/// Membership of a sorted-set member, executable.
fn zcontains(z: &Vec<(i64, Vec<u8>)>, m: &Vec<u8>) -> (r: bool)
    ensures
        r == zhas(crate::index::pview(z@), m@),
{
    let mut i: usize = 0;
    while i < z.len()
        invariant
            i <= z.len(),
            forall|q: int| 0 <= q < i ==> (#[trigger] crate::index::pview(z@)[q]).1 != m@,
        decreases z.len() - i,
    {
        if crate::value::bytes_eq(&z[i].1, m) {
            proof {
                assert(crate::index::pview(z@)[i as int].1 == m@);
            }
            return true;
        }
        i += 1;
    }
    proof {
        if zhas(crate::index::pview(z@), m@) {
            let q = choose|q: int|
                0 <= q < crate::index::pview(z@).len() && (#[trigger] crate::index::pview(
                    z@,
                )[q]).1 == m@;
        }
    }
    false
}

impl Store {
    /// Pushes a payload at the head of a list; a non-list value under
    /// the key is replaced. The write is logged.
    pub fn lpush(&mut self, k: &Vec<u8>, v: &Vec<u8>, now: u64)
        requires
            old(self).wf(),
            k@.len() <= 0xffff_ffff,
            v@.len() <= 0xffff_ffff,
        ensures
            final(self).wf(),
            final(self)@ == sv_lpush(old(self)@, k@, v@, now),
    {
        let rec = RecE::Lpush(clone_bytes(k), clone_bytes(v));
        self.reap_str(k, now);
        let ghost s1 = self@;
        let cur: Option<Entry> = match self.strs.peek(k) {
            Some(e) => Some(e.duplicate()),
            None => None,
        };
        proof {
            if lookup(s1.strs, k@) is Some {
                crate::lru::lemma_lookup_absent(s1.strs, k@);
                let kidx = choose|i: int| 0 <= i < s1.strs.len() && (#[trigger] s1.strs[i]).0 == k@;
                crate::lru::lemma_lookup_at(s1.strs, k@, kidx);
                assert(crate::store::entries_wf(s1.strs) && 0 <= kidx < s1.strs.len());
            }
        }
        let (nl, dl): (Vec<Vec<u8>>, Option<u64>) = match cur {
            Some(e) => {
                let dl = e.deadline;
                match e.value {
                    Value::List(l) => {
                        let mut out = clone_list(&l);
                        if out.len() < 0xffff_ffff {
                            let ghost pre = out@;
                            out.insert(0, clone_bytes(v));
                            proof {
                                assert(bytes_seq_view(out@) =~= seq![v@] + bytes_seq_view(pre));
                            }
                        }
                        (out, dl)
                    },
                    _ => {
                        let mut out: Vec<Vec<u8>> = Vec::new();
                        out.push(clone_bytes(v));
                        proof {
                            assert(bytes_seq_view(out@) =~= seq![v@]);
                        }
                        (out, dl)
                    },
                }
            },
            None => {
                let mut out: Vec<Vec<u8>> = Vec::new();
                out.push(clone_bytes(v));
                proof {
                    assert(bytes_seq_view(out@) =~= seq![v@]);
                }
                (out, None)
            },
        };
        self.put_str(clone_bytes(k), Entry { value: Value::List(nl), deadline: dl }, now);
        self.log_record(&rec);
        proof {
            assert(self@ =~= sv_lpush(old(self)@, k@, v@, now));
        }
    }

    /// Pops and returns the tail of a list; missing, empty or non-list
    /// values read as missing. Not logged: replay rebuilds lists from
    /// their pushes.
    pub fn rpop(&mut self, k: &Vec<u8>, now: u64) -> (r: Option<Vec<u8>>)
        requires
            old(self).wf(),
            k@.len() <= 0xffff_ffff,
        ensures
            final(self).wf(),
            final(self)@ == sv_rpop_core(old(self)@, k@, now),
            match r {
                Some(b) => rpop_result(sv_reap_str(old(self)@, k@, now).strs, k@) == Some(b@),
                None => rpop_result(sv_reap_str(old(self)@, k@, now).strs, k@) is None,
            },
    {
        self.reap_str(k, now);
        let ghost s1 = self@;
        let cur: Option<Entry> = match self.strs.peek(k) {
            Some(e) => Some(e.duplicate()),
            None => None,
        };
        proof {
            if lookup(s1.strs, k@) is Some {
                crate::lru::lemma_lookup_absent(s1.strs, k@);
                let kidx = choose|i: int| 0 <= i < s1.strs.len() && (#[trigger] s1.strs[i]).0 == k@;
                crate::lru::lemma_lookup_at(s1.strs, k@, kidx);
                assert(crate::store::entries_wf(s1.strs) && 0 <= kidx < s1.strs.len());
            }
        }
        match cur {
            Some(e) => {
                let dl = e.deadline;
                match e.value {
                    Value::List(l) => {
                        if l.len() > 0 {
                            let mut out = clone_list(&l);
                            let last = match out.pop() {
                                Some(b) => b,
                                None => {
                                    proof {
                                        assert(false);
                                    }
                                    unreached()
                                },
                            };
                            proof {
                                assert(bytes_seq_view(out@) =~= bytes_seq_view(
                                    l@,
                                ).drop_last());
                                assert(last@ == bytes_seq_view(l@).last());
                            }
                            self.put_str(
                                clone_bytes(k),
                                Entry { value: Value::List(out), deadline: dl },
                                now,
                            );
                            proof {
                                assert(self@ =~= sv_rpop_core(old(self)@, k@, now));
                            }
                            Some(last)
                        } else {
                            proof {
                                assert(self@ =~= sv_rpop_core(old(self)@, k@, now));
                            }
                            None
                        }
                    },
                    _ => {
                        proof {
                            assert(self@ =~= sv_rpop_core(old(self)@, k@, now));
                        }
                        None
                    },
                }
            },
            None => {
                proof {
                    assert(self@ =~= sv_rpop_core(old(self)@, k@, now));
                }
                None
            },
        }
    }

    /// Reads a rank range of a list as an items frame. The read marks
    /// the key most recently used.
    pub fn lrange(&mut self, k: &Vec<u8>, start: i64, stop: i64, now: u64) -> (r: Vec<u8>)
        requires
            old(self).wf(),
            k@.len() <= 0xffff_ffff,
        ensures
            final(self).wf(),
            final(self)@ == sv_touch_str(old(self)@, k@, now),
            ({
                let found = lookup(sv_reap_str(old(self)@, k@, now).strs, k@);
                match found {
                    Some(e) => match e.value {
                        ValueV::List(l) => r@ == crate::frames::items_frame(
                            rank_slice(l, start as int, stop as int),
                        ),
                        _ => r@ == Seq::<u8>::empty(),
                    },
                    None => r@ == Seq::<u8>::empty(),
                }
            }),
    {
        match self.touch_str(k, now) {
            Some(e) => {
                let ghost ev = e@;
                match e.value {
                    Value::List(l) => {
                        proof {
                            assert(crate::store::entries_wf(self@.strs));
                            assert(self@.strs[0].1 == ev);
                            assert(crate::value::value_wf(ValueV::List(bytes_seq_view(l@))));
                        }
                        proof {
                            assert forall|q: int|
                                0 <= q < l@.len() implies (#[trigger] l@[q])@.len()
                                <= 0xffff_ffff by {
                                assert(bytes_seq_view(l@)[q] == l@[q]@);
                            }
                        }
                        let items = slice_by_rank(&l, start, stop);
                        build_items_frame(&items)
                    },
                    _ => Vec::new(),
                }
            },
            None => Vec::new(),
        }
    }

    /// Adds a member to a set; returns whether it was added. The write
    /// is logged.
    pub fn sadd(&mut self, k: &Vec<u8>, v: &Vec<u8>, now: u64) -> (r: bool)
        requires
            old(self).wf(),
            k@.len() <= 0xffff_ffff,
            v@.len() <= 0xffff_ffff,
        ensures
            final(self).wf(),
            final(self)@ == sv_sadd(old(self)@, k@, v@, now),
    {
        let rec = RecE::Sadd(clone_bytes(k), clone_bytes(v));
        self.reap_str(k, now);
        let ghost s1 = self@;
        let cur: Option<Entry> = match self.strs.peek(k) {
            Some(e) => Some(e.duplicate()),
            None => None,
        };
        proof {
            if lookup(s1.strs, k@) is Some {
                crate::lru::lemma_lookup_absent(s1.strs, k@);
                let kidx = choose|i: int| 0 <= i < s1.strs.len() && (#[trigger] s1.strs[i]).0 == k@;
                crate::lru::lemma_lookup_at(s1.strs, k@, kidx);
                assert(crate::store::entries_wf(s1.strs) && 0 <= kidx < s1.strs.len());
            }
        }
        let mut added = false;
        let (ns, dl): (Vec<Vec<u8>>, Option<u64>) = match cur {
            Some(e) => {
                let dl = e.deadline;
                match e.value {
                    Value::SetVal(m) => {
                        let mut out = clone_list(&m);
                        if !contains_bytes(&out, v) && out.len() < 0xffff_ffff {
                            let ghost pre = out@;
                            out.push(clone_bytes(v));
                            added = true;
                            proof {
                                assert(bytes_seq_view(out@) =~= bytes_seq_view(pre).push(v@));
                            }
                        }
                        (out, dl)
                    },
                    _ => {
                        let mut out: Vec<Vec<u8>> = Vec::new();
                        out.push(clone_bytes(v));
                        added = true;
                        proof {
                            assert(bytes_seq_view(out@) =~= seq![v@]);
                        }
                        (out, dl)
                    },
                }
            },
            None => {
                let mut out: Vec<Vec<u8>> = Vec::new();
                out.push(clone_bytes(v));
                added = true;
                proof {
                    assert(bytes_seq_view(out@) =~= seq![v@]);
                }
                (out, None)
            },
        };
        self.put_str(clone_bytes(k), Entry { value: Value::SetVal(ns), deadline: dl }, now);
        self.log_record(&rec);
        proof {
            assert(self@ =~= sv_sadd(old(self)@, k@, v@, now));
        }
        added
    }

    /// Whether the set under `k` holds the member. The read marks the
    /// key most recently used.
    pub fn sismember(&mut self, k: &Vec<u8>, v: &Vec<u8>, now: u64) -> (r: bool)
        requires
            old(self).wf(),
            k@.len() <= 0xffff_ffff,
        ensures
            final(self).wf(),
            final(self)@ == sv_touch_str(old(self)@, k@, now),
            ({
                let found = lookup(sv_reap_str(old(self)@, k@, now).strs, k@);
                match found {
                    Some(e) => match e.value {
                        ValueV::SetVal(m) => r == set_has(m, v@),
                        _ => r == false,
                    },
                    None => r == false,
                }
            }),
    {
        match self.touch_str(k, now) {
            Some(e) => match e.value {
                Value::SetVal(m) => contains_bytes(&m, v),
                _ => false,
            },
            None => false,
        }
    }
}

/// Clones the rank-range slice of a list.
fn slice_by_rank(l: &Vec<Vec<u8>>, start: i64, stop: i64) -> (r: Vec<Vec<u8>>)
    requires
        l@.len() <= 0xffff_ffff,
        forall|q: int| 0 <= q < l@.len() ==> (#[trigger] l@[q])@.len() <= 0xffff_ffff,
    ensures
        bytes_seq_view(r@) == rank_slice(bytes_seq_view(l@), start as int, stop as int),
        r@.len() <= l@.len(),
        forall|q: int| 0 <= q < r@.len() ==> (#[trigger] r@[q])@.len() <= 0xffff_ffff,
{
    let ghost lv = bytes_seq_view(l@);
    let n = l.len();
    let a64: i64 = if start < 0 {
        start + n as i64
    } else {
        start
    };
    let a64: i64 = if a64 < 0 {
        0
    } else {
        a64
    };
    let b64: i64 = if stop < 0 {
        stop + n as i64
    } else {
        stop
    };
    let b64: i64 = if b64 > n as i64 - 1 {
        n as i64 - 1
    } else {
        b64
    };
    let mut out: Vec<Vec<u8>> = Vec::new();
    if a64 > b64 {
        proof {
            assert(bytes_seq_view(out@) =~= rank_slice(lv, start as int, stop as int));
        }
        return out;
    }
    let a = a64 as usize;
    let b = b64 as usize;
    let mut i = a;
    while i <= b
        invariant
            a <= i <= b + 1,
            b < l@.len() <= 0xffff_ffff,
            lv == bytes_seq_view(l@),
            forall|q: int| 0 <= q < l@.len() ==> (#[trigger] l@[q])@.len() <= 0xffff_ffff,
            out@.len() == i - a,
            forall|q: int| 0 <= q < out@.len() ==> (#[trigger] out@[q])@ == lv[a + q],
            forall|q: int| 0 <= q < out@.len() ==> (#[trigger] out@[q])@.len() <= 0xffff_ffff,
        decreases b + 1 - i,
    {
        out.push(clone_bytes(&l[i]));
        proof {
            assert(lv[i as int] == l@[i as int]@);
        }
        i += 1;
    }
    proof {
        assert(bytes_seq_view(out@) =~= rank_slice(lv, start as int, stop as int));
    }
    out
}

impl Store {
    /// Stores a member with a score key; the member's former score is
    /// replaced, and range reads come back score ascending. The write is
    /// logged with the score key's 64-bit image.
    pub fn zadd(&mut self, k: &Vec<u8>, score_key: i64, m: &Vec<u8>, now: u64)
        requires
            old(self).wf(),
            k@.len() <= 0xffff_ffff,
            m@.len() <= 0xffff_ffff,
        ensures
            final(self).wf(),
            final(self)@ == sv_zadd(old(self)@, k@, score_key, m@, now),
    {
        let rec = RecE::Zadd(clone_bytes(k), score_key as u64, clone_bytes(m));
        self.reap_str(k, now);
        let ghost s1 = self@;
        let cur: Option<Entry> = match self.strs.peek(k) {
            Some(e) => Some(e.duplicate()),
            None => None,
        };
        proof {
            if lookup(s1.strs, k@) is Some {
                crate::lru::lemma_lookup_absent(s1.strs, k@);
                let kidx = choose|i: int| 0 <= i < s1.strs.len() && (#[trigger] s1.strs[i]).0 == k@;
                crate::lru::lemma_lookup_at(s1.strs, k@, kidx);
                assert(crate::store::entries_wf(s1.strs) && 0 <= kidx < s1.strs.len());
            }
        }
        let (nz, dl): (Vec<(i64, Vec<u8>)>, Option<u64>) = match cur {
            Some(e) => {
                let dl = e.deadline;
                match e.value {
                    Value::SortedSet(z) => {
                        let ghost zv = crate::index::pview(z@);
                        if !zcontains(&z, m) && z.len() >= 0xffff_ffff {
                            (clone_ipairs(&z), dl)
                        } else {
                            proof {
                                assert(crate::value::value_wf(ValueV::SortedSet(zv)));
                                crate::index::lemma_without_members(zv, m@);
                                crate::index::lemma_without_shape(zv, m@);
                                crate::index::lemma_ins_members(
                                    pairs_without(zv, m@),
                                    score_key,
                                    m@,
                                );
                                assert(!crate::index::pair_in(
                                    pairs_without(zv, m@),
                                    score_key,
                                    m@,
                                )) by {
                                    if crate::index::pair_in(
                                        pairs_without(zv, m@),
                                        score_key,
                                        m@,
                                    ) {
                                        let q = choose|q: int|
                                            0 <= q < pairs_without(zv, m@).len()
                                                && pairs_without(zv, m@)[q] == (score_key, m@);
                                    }
                                }
                                crate::index::lemma_ins_shape(
                                    pairs_without(zv, m@),
                                    score_key,
                                    m@,
                                );
                                if zhas(zv, m@) {
                                    crate::index::lemma_without_present(zv, m@);
                                } else {
                                    crate::index::lemma_without_id(zv, m@);
                                }
                            }
                            let mut out = crate::index::pairs_without_build(&z, m);
                            crate::index::pairs_insert(&mut out, score_key, clone_bytes(m));
                            (out, dl)
                        }
                    },
                    _ => {
                        let mut out: Vec<(i64, Vec<u8>)> = Vec::new();
                        out.push((score_key, clone_bytes(m)));
                        proof {
                            assert(crate::index::pview(out@) =~= seq![(score_key, m@)]);
                        }
                        (out, dl)
                    },
                }
            },
            None => {
                let mut out: Vec<(i64, Vec<u8>)> = Vec::new();
                out.push((score_key, clone_bytes(m)));
                proof {
                    assert(crate::index::pview(out@) =~= seq![(score_key, m@)]);
                }
                (out, None)
            },
        };
        proof {
            let nzv = crate::index::pview(nz@);
            assert forall|q: int|
                0 <= q < nzv.len() implies (#[trigger] nzv[q]).1.len() <= 0xffff_ffff by {
                let le = lookup(s1.strs, k@);
                if le is Some && le->0.value is SortedSet {
                    let zv0 = le->0.value->SortedSet_0;
                    if !(!zhas(zv0, m@) && zv0.len() >= 0xffff_ffff) {
                        let w = pairs_without(zv0, m@);
                        if nzv[q] == (score_key, m@) {
                        } else {
                            let j = choose|j: int| 0 <= j < w.len() && w[j] == nzv[q];
                            let j2 = choose|j2: int|
                                0 <= j2 < zv0.len() && zv0[j2] == w[j] && zv0[j2].1 != m@;
                        }
                    }
                }
            }
            assert(entry_wf(EntryV { value: ValueV::SortedSet(nzv), deadline: dl }));
        }
        self.put_str(
            clone_bytes(k),
            Entry { value: Value::SortedSet(nz), deadline: dl },
            now,
        );
        self.log_record(&rec);
        proof {
            assert(self@ =~= sv_zadd(old(self)@, k@, score_key, m@, now));
        }
    }

    /// Reads a rank range of a sorted set, members only, score
    /// ascending.
    pub fn zrange(&mut self, k: &Vec<u8>, start: i64, stop: i64, now: u64) -> (r: Vec<u8>)
        requires
            old(self).wf(),
            k@.len() <= 0xffff_ffff,
        ensures
            final(self).wf(),
            final(self)@ == sv_touch_str(old(self)@, k@, now),
            ({
                let found = lookup(sv_reap_str(old(self)@, k@, now).strs, k@);
                match found {
                    Some(e) => match e.value {
                        ValueV::SortedSet(z) => r@ == crate::frames::items_frame(
                            rank_slice(zmembers(z), start as int, stop as int),
                        ),
                        _ => r@ == Seq::<u8>::empty(),
                    },
                    None => r@ == Seq::<u8>::empty(),
                }
            }),
    {
        match self.touch_str(k, now) {
            Some(e) => {
                let ghost ev = e@;
                match e.value {
                    Value::SortedSet(z) => {
                        proof {
                            assert(crate::store::entries_wf(self@.strs));
                            assert(self@.strs[0].1 == ev);
                            assert(crate::value::value_wf(
                                ValueV::SortedSet(crate::index::pview(z@)),
                            ));
                        }
                        let mut members: Vec<Vec<u8>> = Vec::new();
                        let mut i: usize = 0;
                        while i < z.len()
                            invariant
                                i <= z@.len(),
                                members@.len() == i,
                                forall|q: int|
                                    0 <= q < i ==> (#[trigger] members@[q])@
                                        == crate::index::pview(z@)[q].1,
                                crate::value::value_wf(
                                    ValueV::SortedSet(crate::index::pview(z@)),
                                ),
                            decreases z.len() - i,
                        {
                            members.push(clone_bytes(&z[i].1));
                            proof {
                                assert(crate::index::pview(z@)[i as int] == (
                                    z@[i as int].0,
                                    z@[i as int].1@,
                                ));
                            }
                            i += 1;
                        }
                        proof {
                            assert(bytes_seq_view(members@) =~= zmembers(
                                crate::index::pview(z@),
                            ));
                            assert forall|q: int|
                                0 <= q < members@.len() implies (#[trigger] members@[q])@.len()
                                <= 0xffff_ffff by {
                                assert(crate::index::pview(z@)[q].1.len() <= 0xffff_ffff);
                            }
                        }
                        let items = slice_by_rank(&members, start, stop);
                        build_items_frame(&items)
                    },
                    _ => Vec::new(),
                }
            },
            None => Vec::new(),
        }
    }

    /// Appends a stream entry under the next ordinal and returns its id;
    /// an exhausted ordinal space returns 0 and stores nothing. The
    /// write is logged with its id.
    pub fn xadd(&mut self, k: &Vec<u8>, p: &Vec<u8>, now: u64) -> (r: u64)
        requires
            old(self).wf(),
            k@.len() <= 0xffff_ffff,
            p@.len() <= 0xffff_ffff,
        ensures
            final(self).wf(),
            final(self)@ == sv_xadd(old(self)@, k@, p@, now),
            r == if old(self)@.stream_ctr == u64::MAX {
                0u64
            } else {
                old(self)@.stream_ctr
            },
    {
        if self.stream_ctr == u64::MAX {
            return 0;
        }
        let id = self.stream_ctr;
        let rec = RecE::Xadd(clone_bytes(k), id, clone_bytes(p));
        self.reap_str(k, now);
        let ghost s1 = self@;
        let cur: Option<Entry> = match self.strs.peek(k) {
            Some(e) => Some(e.duplicate()),
            None => None,
        };
        proof {
            if lookup(s1.strs, k@) is Some {
                crate::lru::lemma_lookup_absent(s1.strs, k@);
                let kidx = choose|i: int| 0 <= i < s1.strs.len() && (#[trigger] s1.strs[i]).0 == k@;
                crate::lru::lemma_lookup_at(s1.strs, k@, kidx);
                assert(crate::store::entries_wf(s1.strs) && 0 <= kidx < s1.strs.len());
                assert(crate::store::streams_bounded(s1.strs, s1.stream_ctr) && 0 <= kidx
                    < s1.strs.len());
            }
        }
        let (nx, dl): (Vec<(u64, Vec<u8>)>, Option<u64>) = match cur {
            Some(e) => {
                let dl = e.deadline;
                match e.value {
                    Value::Stream(x) => {
                        let mut out = clone_scored(&x);
                        if out.len() < 0xffff_ffff && (out.len() == 0 || out[out.len() - 1].0
                            < id) {
                            let ghost pre = out@;
                            out.push((id, clone_bytes(p)));
                            proof {
                                assert(scored_view(out@) =~= scored_view(pre).push((id, p@)));
                            }
                        }
                        (out, dl)
                    },
                    _ => {
                        let mut out: Vec<(u64, Vec<u8>)> = Vec::new();
                        out.push((id, clone_bytes(p)));
                        proof {
                            assert(scored_view(out@) =~= seq![(id, p@)]);
                        }
                        (out, dl)
                    },
                }
            },
            None => {
                let mut out: Vec<(u64, Vec<u8>)> = Vec::new();
                out.push((id, clone_bytes(p)));
                proof {
                    assert(scored_view(out@) =~= seq![(id, p@)]);
                }
                (out, None)
            },
        };
        self.stream_ctr = id + 1;
        proof {
            assert(crate::store::sv_wf(self@)) by {
                assert(crate::store::streams_bounded(self@.strs, self@.stream_ctr)) by {
                    assert(forall|i: int|
                        0 <= i < s1.strs.len() ==> s1.strs[i] == (#[trigger] self@.strs[i]));
                }
                assert(crate::store::streams_bounded(self@.bins, self@.stream_ctr)) by {
                    assert(forall|i: int|
                        0 <= i < s1.bins.len() ==> s1.bins[i] == (#[trigger] self@.bins[i]));
                }
            }
            assert(entry_wf(EntryV { value: ValueV::Stream(scored_view(nx@)), deadline: dl }));
        }
        self.put_str(clone_bytes(k), Entry { value: Value::Stream(nx), deadline: dl }, now);
        self.log_record(&rec);
        proof {
            assert(self@ =~= sv_xadd(old(self)@, k@, p@, now));
        }
        id
    }

    /// Reads the stream entries with ids between `lo` and `hi` as a
    /// stream frame.
    pub fn xrange(&mut self, k: &Vec<u8>, lo: u64, hi: u64, now: u64) -> (r: Vec<u8>)
        requires
            old(self).wf(),
            k@.len() <= 0xffff_ffff,
        ensures
            final(self).wf(),
            final(self)@ == sv_touch_str(old(self)@, k@, now),
            ({
                let found = lookup(sv_reap_str(old(self)@, k@, now).strs, k@);
                match found {
                    Some(e) => match e.value {
                        ValueV::Stream(x) => r@ == crate::frames::stream_frame(
                            xslice(x, lo, hi),
                        ),
                        _ => r@ == Seq::<u8>::empty(),
                    },
                    None => r@ == Seq::<u8>::empty(),
                }
            }),
    {
        match self.touch_str(k, now) {
            Some(e) => {
                let ghost ev = e@;
                match e.value {
                    Value::Stream(x) => {
                        proof {
                            assert(crate::store::entries_wf(self@.strs));
                            assert(self@.strs[0].1 == ev);
                            assert(crate::value::value_wf(ValueV::Stream(scored_view(x@))));
                        }
                        let ghost xv = scored_view(x@);
                        let mut out: Vec<(u64, Vec<u8>)> = Vec::new();
                        let mut i: usize = 0;
                        while i < x.len()
                            invariant
                                i <= x@.len(),
                                xv == scored_view(x@),
                                scored_view(out@) == xslice(
                                    xv.subrange(0, i as int),
                                    lo,
                                    hi,
                                ),
                                crate::value::value_wf(ValueV::Stream(xv)),
                            decreases x.len() - i,
                        {
                            let p = &x[i];
                            proof {
                                assert(xv[i as int] == (x@[i as int].0, x@[i as int].1@));
                                assert(xv.subrange(0, i as int + 1).drop_last() =~= xv.subrange(
                                    0,
                                    i as int,
                                ));
                                assert(xv.subrange(0, i as int + 1).last() == xv[i as int]);
                            }
                            if lo <= p.0 && p.0 <= hi {
                                let ghost pre = out@;
                                out.push((p.0, clone_bytes(&p.1)));
                                proof {
                                    assert(scored_view(out@) =~= scored_view(pre).push(
                                        (x@[i as int].0, x@[i as int].1@),
                                    ));
                                    assert(scored_view(out@) =~= xslice(
                                        xv.subrange(0, i as int + 1),
                                        lo,
                                        hi,
                                    ));
                                }
                            } else {
                                proof {
                                    assert(scored_view(out@) =~= xslice(
                                        xv.subrange(0, i as int + 1),
                                        lo,
                                        hi,
                                    ));
                                }
                            }
                            i += 1;
                        }
                        proof {
                            assert(xv.subrange(0, xv.len() as int) =~= xv);
                            lemma_xslice_shape(xv, lo, hi);
                            assert forall|q: int|
                                0 <= q < out@.len() implies (#[trigger] out@[q]).1@.len()
                                <= 0xffff_ffff by {
                                let sl = xslice(xv, lo, hi);
                                assert(scored_view(out@)[q] == sl[q]);
                                let j = choose|j: int| 0 <= j < xv.len() && xv[j] == sl[q];
                            }
                        }
                        build_stream_frame(&out)
                    },
                    _ => Vec::new(),
                }
            },
            None => Vec::new(),
        }
    }
}

/// Every selected stream entry stands in the stream.
proof fn lemma_xslice_shape(x: Seq<(u64, Seq<u8>)>, lo: u64, hi: u64)
    ensures
        xslice(x, lo, hi).len() <= x.len(),
        forall|q: int|
            0 <= q < xslice(x, lo, hi).len() ==> exists|j: int|
                0 <= j < x.len() && x[j] == #[trigger] xslice(x, lo, hi)[q],
    decreases x.len(),
{
    if x.len() > 0 {
        lemma_xslice_shape(x.drop_last(), lo, hi);
        assert(forall|i: int|
            0 <= i < x.drop_last().len() ==> #[trigger] x.drop_last()[i] == x[i]);
        let w0 = xslice(x.drop_last(), lo, hi);
        assert forall|q: int| 0 <= q < xslice(x, lo, hi).len() implies exists|j: int|
            0 <= j < x.len() && x[j] == #[trigger] xslice(x, lo, hi)[q] by {
            if lo <= x.last().0 <= hi && q == xslice(x, lo, hi).len() - 1 {
                assert(x[x.len() - 1] == xslice(x, lo, hi)[q]);
            } else {
                assert(xslice(x, lo, hi)[q] == w0[q]);
                let j0 = choose|j: int| 0 <= j < x.drop_last().len() && x.drop_last()[j] == w0[q];
                assert(x[j0] == xslice(x, lo, hi)[q]);
            }
        }
    }
}

} // verus!
