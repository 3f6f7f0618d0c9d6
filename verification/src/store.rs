//! The engine state: two bounded LRU namespaces, the numeric indexes,
//! the append-only log buffer, the notification queue, the pub/sub state
//! and the stream ordinal counter, with the invariants that tie them
//! together.
use vstd::prelude::*;

use crate::index::{
    ins_pair, ixs_view, pair_in, pairs_distinct, pairs_sorted, pairs_without, NumIndex,
};
use crate::json::json_top_int;
use crate::lru::{distinct_keys, keyless, lookup, Assoc, LruMap};
use crate::value::{entry_wf, Entry, EntryV, Value, ValueV};

verus! {

/// One keyspace notification: kind 1 is expired, kind 2 is evicted.
pub struct Notif {
    pub kind: u8,
    pub key: Vec<u8>,
    pub at_ms: u64,
}

/// One subscriber: its id, its channel, and its pending messages, oldest
/// first.
pub struct Sub {
    pub id: u64,
    pub chan: Vec<u8>,
    pub queue: Vec<Vec<u8>>,
}

/// Spec image of a subscriber.
#[verifier::ext_equal]
pub struct SubV {
    pub id: u64,
    pub chan: Seq<u8>,
    pub queue: Seq<Seq<u8>>,
}

/// The engine state.
pub struct Store {
    pub strs: LruMap,
    pub bins: LruMap,
    pub indexes: Vec<NumIndex>,
    pub aof: Option<Vec<u8>>,
    pub notifs: Vec<Notif>,
    pub subs: Vec<Sub>,
    pub next_sub: u64,
    pub stream_ctr: u64,
}

/// Spec image of the engine state.
#[verifier::ext_equal]
pub struct StoreV {
    pub strs: Assoc,
    pub bins: Assoc,
    pub cap: nat,
    pub indexes: Seq<(Seq<u8>, Seq<(i64, Seq<u8>)>)>,
    pub aof: Option<Seq<u8>>,
    pub notifs: Seq<(u8, Seq<u8>, u64)>,
    pub subs: Seq<SubV>,
    pub next_sub: u64,
    pub stream_ctr: u64,
}

pub open spec fn notifs_view(v: Seq<Notif>) -> Seq<(u8, Seq<u8>, u64)> {
    Seq::new(v.len(), |q: int| (v[q].kind, v[q].key@, v[q].at_ms))
}

pub open spec fn subs_view(v: Seq<Sub>) -> Seq<SubV> {
    Seq::new(
        v.len(),
        |q: int|
            SubV {
                id: v[q].id,
                chan: v[q].chan@,
                queue: crate::value::bytes_seq_view(v[q].queue@),
            },
    )
}

impl View for Store {
    type V = StoreV;

    open spec fn view(&self) -> StoreV {
        StoreV {
            strs: self.strs@,
            bins: self.bins@,
            cap: self.strs.cap as nat,
            indexes: ixs_view(self.indexes@),
            aof: match self.aof {
                Some(a) => Some(a@),
                None => None,
            },
            notifs: notifs_view(self.notifs@),
            subs: subs_view(self.subs@),
            next_sub: self.next_sub,
            stream_ctr: self.stream_ctr,
        }
    }
}

/// Keys fit their frame lengths and every entry is well formed.
pub open spec fn entries_wf(a: Assoc) -> bool {
    forall|i: int|
        0 <= i < a.len() ==> (#[trigger] a[i]).0.len() <= 0xffff_ffff && entry_wf(a[i].1)
}

/// Every stream id already stored is below the next ordinal.
pub open spec fn streams_bounded(a: Assoc, ctr: u64) -> bool {
    forall|i: int|
        0 <= i < a.len() ==> match (#[trigger] a[i]).1.value {
            ValueV::Stream(x) => forall|j: int| 0 <= j < x.len() ==> (#[trigger] x[j]).0 < ctr,
            _ => true,
        }
}

/// The stored entry under `k` is a byte value whose JSON document holds
/// the integer `n` at top-level field `f`.
pub open spec fn key_maps(strs: Assoc, k: Seq<u8>, f: Seq<u8>, n: i64) -> bool {
    match lookup(strs, k) {
        Some(e) => match e.value {
            ValueV::Bytes(b) => json_top_int(b, f) == Some(n),
            _ => false,
        },
        None => false,
    }
}

/// Position `ki` of the store appears in the index wherever its document
/// carries the field.
pub open spec fn str_indexed(strs: Assoc, m: Seq<(i64, Seq<u8>)>, f: Seq<u8>, ki: int) -> bool {
    match strs[ki].1.value {
        ValueV::Bytes(b) => match json_top_int(b, f) {
            Some(n) => pair_in(m, n, strs[ki].0),
            None => true,
        },
        _ => true,
    }
}

/// One index is consistent with the string namespace: its pairs name
/// exactly the stored documents that carry the field as an integer.
pub open spec fn index_entry_ok(strs: Assoc, f: Seq<u8>, m: Seq<(i64, Seq<u8>)>) -> bool {
    &&& pairs_sorted(m)
    &&& pairs_distinct(m)
    &&& forall|pi: int| 0 <= pi < m.len() ==> key_maps(strs, (#[trigger] m[pi]).1, f, m[pi].0)
    &&& forall|ki: int| 0 <= ki < strs.len() ==> str_indexed(strs, m, f, ki)
}

/// Every registered index is consistent, and fields are distinct.
pub open spec fn index_ok(s: StoreV) -> bool {
    &&& forall|i: int, j: int|
        0 <= i < j < s.indexes.len() ==> (#[trigger] s.indexes[i]).0 != (#[trigger] s.indexes[j]).0
    &&& forall|fi: int|
        0 <= fi < s.indexes.len() ==> index_entry_ok(
            s.strs,
            (#[trigger] s.indexes[fi]).0,
            s.indexes[fi].1,
        )
}

/// Subscribers carry distinct live ids, nonempty channels, and frame-safe
/// lengths.
pub open spec fn subs_wf(subs: Seq<SubV>, next: u64) -> bool {
    &&& forall|i: int, j: int|
        0 <= i < j < subs.len() ==> (#[trigger] subs[i]).id != (#[trigger] subs[j]).id
    &&& forall|i: int|
        0 <= i < subs.len() ==> {
            &&& 1 <= (#[trigger] subs[i]).id < next
            &&& 1 <= subs[i].chan.len() <= 0xffff_ffff
            &&& forall|q: int|
                0 <= q < subs[i].queue.len() ==> (#[trigger] subs[i].queue[q]).len()
                    <= 0xffff_ffff
        }
}

/// Binary keys stay short enough for their hex notification names to
/// fit a frame length.
pub open spec fn bin_keys_wf(a: Assoc) -> bool {
    forall|i: int| 0 <= i < a.len() ==> (#[trigger] a[i]).0.len() <= 0x7fff_fffe
}

/// Notification keys fit their frame length.
pub open spec fn notifs_wf(ns: Seq<(u8, Seq<u8>, u64)>) -> bool {
    forall|i: int| 0 <= i < ns.len() ==> (#[trigger] ns[i]).1.len() <= 0xffff_ffff
}

/// The whole-store invariant over the spec image.
pub open spec fn sv_wf(s: StoreV) -> bool {
    &&& 1 <= s.cap <= 0xffff_ffff
    &&& s.strs.len() <= s.cap
    &&& s.bins.len() <= s.cap
    &&& distinct_keys(s.strs)
    &&& distinct_keys(s.bins)
    &&& entries_wf(s.strs)
    &&& entries_wf(s.bins)
    &&& streams_bounded(s.strs, s.stream_ctr)
    &&& streams_bounded(s.bins, s.stream_ctr)
    &&& bin_keys_wf(s.bins)
    &&& index_ok(s)
    &&& notifs_wf(s.notifs)
    &&& subs_wf(s.subs, s.next_sub)
    &&& 1 <= s.next_sub
}

impl Store {
    /// The executable state is well formed and its image satisfies the
    /// store invariant.
    pub open spec fn wf(&self) -> bool {
        &&& self.strs.wf()
        &&& self.bins.wf()
        &&& self.bins.cap == self.strs.cap
        &&& sv_wf(self@)
    }
}

/// The index table with every pair of key `k` dropped.
pub open spec fn idx_rm(
    ix: Seq<(Seq<u8>, Seq<(i64, Seq<u8>)>)>,
    k: Seq<u8>,
) -> Seq<(Seq<u8>, Seq<(i64, Seq<u8>)>)> {
    Seq::new(ix.len(), |q: int| (ix[q].0, pairs_without(ix[q].1, k)))
}

/// The index table after inserting `k` for a new stored value: a byte
/// value contributes to each index whose field its document carries.
pub open spec fn idx_add(
    ix: Seq<(Seq<u8>, Seq<(i64, Seq<u8>)>)>,
    k: Seq<u8>,
    v: ValueV,
) -> Seq<(Seq<u8>, Seq<(i64, Seq<u8>)>)> {
    match v {
        ValueV::Bytes(b) => Seq::new(
            ix.len(),
            |q: int|
                (
                    ix[q].0,
                    match json_top_int(b, ix[q].0) {
                        Some(n) => ins_pair(ix[q].1, n, k),
                        None => ix[q].1,
                    },
                ),
        ),
        _ => ix,
    }
}

/// No pair of the index names key `k`.
pub open spec fn pairs_keyfree(m: Seq<(i64, Seq<u8>)>, k: Seq<u8>) -> bool {
    forall|pi: int| 0 <= pi < m.len() ==> (#[trigger] m[pi]).1 != k
}

/// Removing a key from the store and from every index keeps each index
/// consistent, and leaves no pair naming the key.
pub proof fn lemma_index_entry_remove(strs: Assoc, f: Seq<u8>, m: Seq<(i64, Seq<u8>)>, k: Seq<u8>)
    requires
        index_entry_ok(strs, f, m),
        distinct_keys(strs),
    ensures
        index_entry_ok(keyless(strs, k), f, pairs_without(m, k)),
        pairs_keyfree(pairs_without(m, k), k),
    decreases m.len(),
{
    let strs2 = keyless(strs, k);
    let m2 = pairs_without(m, k);
    crate::index::lemma_without_shape(m, k);
    crate::lru::lemma_keyless_membership(strs, k);
    assert forall|pi: int| 0 <= pi < m2.len() implies key_maps(strs2, (#[trigger] m2[pi]).1, f, m2[pi].0)
        && m2[pi].1 != k by {
        let j = choose|j: int| 0 <= j < m.len() && m[j] == m2[pi] && m[j].1 != k;
        assert(key_maps(strs, m[j].1, f, m[j].0));
        crate::lru::lemma_lookup_keyless(strs, k, m2[pi].1);
    }
    assert forall|ki: int| 0 <= ki < strs2.len() implies str_indexed(strs2, m2, f, ki) by {
        let j = choose|j: int| 0 <= j < strs.len() && strs[j] == strs2[ki] && strs[j].0 != k;
        assert(str_indexed(strs, m, f, j));
        match strs2[ki].1.value {
            ValueV::Bytes(b) => {
                match json_top_int(b, f) {
                    Some(n) => {
                        assert(pair_in(m, n, strs[j].0));
                        crate::index::lemma_without_mem(m, k, n, strs2[ki].0);
                    },
                    None => {},
                }
            },
            _ => {},
        }
    }
}

/// Prepending a fresh key, with its index contribution, keeps each index
/// consistent.
pub proof fn lemma_index_entry_insert(
    strs: Assoc,
    f: Seq<u8>,
    m: Seq<(i64, Seq<u8>)>,
    k: Seq<u8>,
    e: EntryV,
)
    requires
        index_entry_ok(strs, f, m),
        pairs_keyfree(m, k),
        lookup(strs, k) is None,
    ensures
        index_entry_ok(
            seq![(k, e)] + strs,
            f,
            match e.value {
                ValueV::Bytes(b) => match json_top_int(b, f) {
                    Some(n) => ins_pair(m, n, k),
                    None => m,
                },
                _ => m,
            },
        ),
{
    let strs2 = seq![(k, e)] + strs;
    let m2 = match e.value {
        ValueV::Bytes(b) => match json_top_int(b, f) {
            Some(n) => ins_pair(m, n, k),
            None => m,
        },
        _ => m,
    };
    let added: Option<i64> = match e.value {
        ValueV::Bytes(b) => json_top_int(b, f),
        _ => None,
    };
    if added is Some {
        let n = added->0;
        assert(!pair_in(m, n, k));
        crate::index::lemma_ins_shape(m, n, k);
    }
    assert forall|pi: int| 0 <= pi < m2.len() implies key_maps(strs2, (#[trigger] m2[pi]).1, f, m2[pi].0) by {
        if added is Some && m2[pi] == (added->0, k) {
            crate::lru::lemma_lookup_prepend(strs, k, e, k);
        } else {
            let old_pair: (i64, Seq<u8>) = m2[pi];
            if added is Some {
                crate::index::lemma_ins_mem(m, added->0, k, old_pair.0, old_pair.1);
            }
            assert(pair_in(m, old_pair.0, old_pair.1));
            let j = choose|j: int| 0 <= j < m.len() && m[j] == old_pair;
            assert(key_maps(strs, old_pair.1, f, old_pair.0));
            assert(old_pair.1 != k) by {
                if old_pair.1 == k {
                    assert(lookup(strs, k) is None);
                }
            }
            crate::lru::lemma_lookup_prepend(strs, k, e, old_pair.1);
        }
    }
    assert forall|ki: int| 0 <= ki < strs2.len() implies str_indexed(strs2, m2, f, ki) by {
        if ki == 0 {
            match e.value {
                ValueV::Bytes(b) => {
                    match json_top_int(b, f) {
                        Some(n) => {
                            crate::index::lemma_ins_mem(m, n, k, n, k);
                        },
                        None => {},
                    }
                },
                _ => {},
            }
        } else {
            assert(strs2[ki] == strs[ki - 1]);
            assert(str_indexed(strs, m, f, ki - 1));
            match strs[ki - 1].1.value {
                ValueV::Bytes(b) => {
                    match json_top_int(b, f) {
                        Some(n) => {
                            assert(pair_in(m, n, strs[ki - 1].0));
                            if added is Some {
                                crate::index::lemma_ins_mem(
                                    m,
                                    added->0,
                                    k,
                                    n,
                                    strs[ki - 1].0,
                                );
                            }
                        },
                        None => {},
                    }
                },
                _ => {},
            }
        }
    }
}

/// After dropping key `k` from the string namespace and every index,
/// the store facts hold again.
pub proof fn lemma_state_remove(s: StoreV, k: Seq<u8>)
    requires
        sv_wf(s),
    ensures
        entries_wf(keyless(s.strs, k)),
        streams_bounded(keyless(s.strs, k), s.stream_ctr),
        keyless(s.strs, k).len() <= s.strs.len(),
        distinct_keys(keyless(s.strs, k)),
        lookup(keyless(s.strs, k), k) is None,
        forall|fi: int|
            0 <= fi < idx_rm(s.indexes, k).len() ==> index_entry_ok(
                keyless(s.strs, k),
                (#[trigger] idx_rm(s.indexes, k)[fi]).0,
                idx_rm(s.indexes, k)[fi].1,
            ) && pairs_keyfree(idx_rm(s.indexes, k)[fi].1, k),
{
    let strs2 = keyless(s.strs, k);
    crate::lru::lemma_keyless_membership(s.strs, k);
    crate::lru::lemma_lookup_keyless(s.strs, k, k);
    assert forall|i: int|
        0 <= i < strs2.len() implies (#[trigger] strs2[i]).0.len() <= 0xffff_ffff && entry_wf(
        strs2[i].1,
    ) && (match strs2[i].1.value {
        ValueV::Stream(x) => forall|j: int| 0 <= j < x.len() ==> (#[trigger] x[j]).0 < s.stream_ctr,
        _ => true,
    }) by {
        let j = choose|j: int| 0 <= j < s.strs.len() && s.strs[j] == strs2[i] && s.strs[j].0 != k;
        assert(entries_wf(s.strs) && 0 <= j < s.strs.len());
        assert(s.strs[j].0.len() <= 0xffff_ffff && entry_wf(s.strs[j].1));
        assert(streams_bounded(s.strs, s.stream_ctr));
    }
    crate::lru::lemma_keyless_distinct(s.strs, k);
    assert forall|fi: int|
        0 <= fi < idx_rm(s.indexes, k).len() implies index_entry_ok(
        strs2,
        (#[trigger] idx_rm(s.indexes, k)[fi]).0,
        idx_rm(s.indexes, k)[fi].1,
    ) && pairs_keyfree(idx_rm(s.indexes, k)[fi].1, k) by {
        assert(index_entry_ok(s.strs, s.indexes[fi].0, s.indexes[fi].1));
        lemma_index_entry_remove(s.strs, s.indexes[fi].0, s.indexes[fi].1, k);
        assert(idx_rm(s.indexes, k)[fi] == (s.indexes[fi].0, pairs_without(s.indexes[fi].1, k)));
    }
}

/// After prepending a fresh key, with its index contribution, the store
/// facts hold again.
pub proof fn lemma_state_insert(
    strs: Assoc,
    ix: Seq<(Seq<u8>, Seq<(i64, Seq<u8>)>)>,
    k: Seq<u8>,
    e: EntryV,
    ctr: u64,
)
    requires
        distinct_keys(strs),
        entries_wf(strs),
        streams_bounded(strs, ctr),
        lookup(strs, k) is None,
        forall|fi: int|
            0 <= fi < ix.len() ==> index_entry_ok(strs, (#[trigger] ix[fi]).0, ix[fi].1)
                && pairs_keyfree(ix[fi].1, k),
        k.len() <= 0xffff_ffff,
        entry_wf(e),
        match e.value {
            ValueV::Stream(x) => forall|j: int| 0 <= j < x.len() ==> (#[trigger] x[j]).0 < ctr,
            _ => true,
        },
    ensures
        entries_wf(seq![(k, e)] + strs),
        streams_bounded(seq![(k, e)] + strs, ctr),
        distinct_keys(seq![(k, e)] + strs),
        forall|fi: int|
            0 <= fi < idx_add(ix, k, e.value).len() ==> index_entry_ok(
                seq![(k, e)] + strs,
                (#[trigger] idx_add(ix, k, e.value)[fi]).0,
                idx_add(ix, k, e.value)[fi].1,
            ),
        idx_add(ix, k, e.value).len() == ix.len(),
        forall|fi: int|
            0 <= fi < ix.len() ==> (#[trigger] idx_add(ix, k, e.value)[fi]).0 == ix[fi].0,
{
    let strs2 = seq![(k, e)] + strs;
    let ix2 = idx_add(ix, k, e.value);
    crate::lru::lemma_lookup_absent(strs, k);
    assert(forall|i: int| 0 <= i < strs.len() ==> strs2[i + 1] == (#[trigger] strs[i]));
    assert forall|fi: int|
        0 <= fi < ix2.len() implies index_entry_ok(strs2, (#[trigger] ix2[fi]).0, ix2[fi].1) by {
        assert(index_entry_ok(strs, ix[fi].0, ix[fi].1));
        lemma_index_entry_insert(strs, ix[fi].0, ix[fi].1, k, e);
        match e.value {
            ValueV::Bytes(b) => {
                assert(ix2[fi] == (
                    ix[fi].0,
                    match json_top_int(b, ix[fi].0) {
                        Some(n) => ins_pair(ix[fi].1, n, k),
                        None => ix[fi].1,
                    },
                ));
            },
            _ => {
                assert(ix2 == ix);
            },
        }
    }
}

/// Lazy expiry of one string key: an expired entry is dropped, its index
/// contributions removed, and an expired notification is queued.
pub open spec fn sv_reap_str(s: StoreV, k: Seq<u8>, now: u64) -> StoreV {
    match lookup(s.strs, k) {
        Some(e) => if crate::value::is_expired(e, now) {
            StoreV {
                strs: keyless(s.strs, k),
                indexes: idx_rm(s.indexes, k),
                notifs: s.notifs.push((1u8, k, now)),
                ..s
            }
        } else {
            s
        },
        None => s,
    }
}

/// Storing an entry under a string key: the key's old index contribution
/// goes, the pair becomes most recently used, a full map evicts its
/// least recently used pair (with an evicted notification and index
/// removal), and the new document is indexed.
pub open spec fn sv_put_str(s: StoreV, k: Seq<u8>, e: EntryV, now: u64) -> StoreV {
    let ix1 = idx_rm(s.indexes, k);
    let s2 = if lookup(s.strs, k) is Some {
        StoreV { strs: seq![(k, e)] + keyless(s.strs, k), indexes: ix1, ..s }
    } else if s.strs.len() < s.cap {
        StoreV { strs: seq![(k, e)] + s.strs, indexes: ix1, ..s }
    } else {
        let victim = s.strs.last();
        StoreV {
            strs: seq![(k, e)] + s.strs.drop_last(),
            indexes: idx_rm(ix1, victim.0),
            notifs: s.notifs.push((2u8, victim.0, now)),
            ..s
        }
    };
    StoreV { indexes: idx_add(s2.indexes, k, e.value), ..s2 }
}

/// Reading a string key: after lazy expiry, a present pair moves to the
/// front.
pub open spec fn sv_touch_str(s: StoreV, k: Seq<u8>, now: u64) -> StoreV {
    let s1 = sv_reap_str(s, k, now);
    match lookup(s1.strs, k) {
        Some(e) => StoreV { strs: seq![(k, e)] + keyless(s1.strs, k), ..s1 },
        None => s1,
    }
}

/// Removing a string key outright: no notification fires.
pub open spec fn sv_remove_str(s: StoreV, k: Seq<u8>, now: u64) -> StoreV {
    let s1 = sv_reap_str(s, k, now);
    StoreV { strs: keyless(s1.strs, k), indexes: idx_rm(s1.indexes, k), ..s1 }
}

/// Lazy expiry of one binary key; the notification names the key as
/// `b:` plus its hex.
pub open spec fn sv_reap_bin(s: StoreV, k: Seq<u8>, now: u64) -> StoreV {
    match lookup(s.bins, k) {
        Some(e) => if crate::value::is_expired(e, now) {
            StoreV {
                bins: keyless(s.bins, k),
                notifs: s.notifs.push((1u8, crate::frames::bkey_name(k), now)),
                ..s
            }
        } else {
            s
        },
        None => s,
    }
}

/// Storing an entry under a binary key; eviction notifies under the
/// `b:` hex name. Binary keys are never indexed.
pub open spec fn sv_put_bin(s: StoreV, k: Seq<u8>, e: EntryV, now: u64) -> StoreV {
    if lookup(s.bins, k) is Some {
        StoreV { bins: seq![(k, e)] + keyless(s.bins, k), ..s }
    } else if s.bins.len() < s.cap {
        StoreV { bins: seq![(k, e)] + s.bins, ..s }
    } else {
        let victim = s.bins.last();
        StoreV {
            bins: seq![(k, e)] + s.bins.drop_last(),
            notifs: s.notifs.push((2u8, crate::frames::bkey_name(victim.0), now)),
            ..s
        }
    }
}

/// Reading a binary key: after lazy expiry, a present pair moves to the
/// front.
pub open spec fn sv_touch_bin(s: StoreV, k: Seq<u8>, now: u64) -> StoreV {
    let s1 = sv_reap_bin(s, k, now);
    match lookup(s1.bins, k) {
        Some(e) => StoreV { bins: seq![(k, e)] + keyless(s1.bins, k), ..s1 },
        None => s1,
    }
}

/// Removing a binary key outright: no notification fires.
pub open spec fn sv_remove_bin(s: StoreV, k: Seq<u8>, now: u64) -> StoreV {
    let s1 = sv_reap_bin(s, k, now);
    StoreV { bins: keyless(s1.bins, k), ..s1 }
}

/// Short binary keys stay short after filtering one out.
pub proof fn lemma_binkeys_keyless(a: Assoc, k: Seq<u8>)
    requires
        bin_keys_wf(a),
    ensures
        bin_keys_wf(keyless(a, k)),
{
    crate::lru::lemma_keyless_membership(a, k);
    assert forall|i: int|
        0 <= i < keyless(a, k).len() implies (#[trigger] keyless(a, k)[i]).0.len()
        <= 0x7fff_fffe by {
        let j = choose|j: int| 0 <= j < a.len() && a[j] == keyless(a, k)[i] && a[j].0 != k;
        assert(a[j].0.len() <= 0x7fff_fffe);
    }
}

/// Structural facts survive filtering a key out of a namespace.
pub proof fn lemma_entries_keyless(a: Assoc, k: Seq<u8>, ctr: u64)
    requires
        entries_wf(a),
        streams_bounded(a, ctr),
        distinct_keys(a),
    ensures
        entries_wf(keyless(a, k)),
        streams_bounded(keyless(a, k), ctr),
        distinct_keys(keyless(a, k)),
        keyless(a, k).len() <= a.len(),
        lookup(keyless(a, k), k) is None,
{
    crate::lru::lemma_keyless_membership(a, k);
    crate::lru::lemma_keyless_distinct(a, k);
    crate::lru::lemma_lookup_keyless(a, k, k);
    let a2 = keyless(a, k);
    assert forall|i: int|
        0 <= i < a2.len() implies (#[trigger] a2[i]).0.len() <= 0xffff_ffff && entry_wf(a2[i].1)
        && (match a2[i].1.value {
        ValueV::Stream(x) => forall|j: int| 0 <= j < x.len() ==> (#[trigger] x[j]).0 < ctr,
        _ => true,
    }) by {
        let j = choose|j: int| 0 <= j < a.len() && a[j] == a2[i] && a[j].0 != k;
        assert(a[j].0.len() <= 0xffff_ffff && entry_wf(a[j].1));
        assert(streams_bounded(a, ctr) && 0 <= j < a.len());
    }
}

/// Structural facts survive prepending a fresh pair.
pub proof fn lemma_entries_prepend(a: Assoc, k: Seq<u8>, e: EntryV, ctr: u64)
    requires
        entries_wf(a),
        streams_bounded(a, ctr),
        distinct_keys(a),
        lookup(a, k) is None,
        k.len() <= 0xffff_ffff,
        entry_wf(e),
        match e.value {
            ValueV::Stream(x) => forall|j: int| 0 <= j < x.len() ==> (#[trigger] x[j]).0 < ctr,
            _ => true,
        },
    ensures
        entries_wf(seq![(k, e)] + a),
        streams_bounded(seq![(k, e)] + a, ctr),
        distinct_keys(seq![(k, e)] + a),
{
    crate::lru::lemma_lookup_absent(a, k);
    assert(forall|i: int| 0 <= i < a.len() ==> (seq![(k, e)] + a)[i + 1] == (#[trigger] a[i]));
    let a2 = seq![(k, e)] + a;
    assert forall|i: int|
        0 <= i < a2.len() implies (#[trigger] a2[i]).0.len() <= 0xffff_ffff && entry_wf(a2[i].1)
        && (match a2[i].1.value {
        ValueV::Stream(x) => forall|j: int| 0 <= j < x.len() ==> (#[trigger] x[j]).0 < ctr,
        _ => true,
    }) by {
        if i > 0 {
            assert(a2[i] == a[i - 1]);
            assert(streams_bounded(a, ctr) && 0 <= i - 1 < a.len());
        }
    }
}

/// Appends record bytes to the log when it is enabled.
pub open spec fn sv_log(s: StoreV, bytes: Seq<u8>) -> StoreV {
    match s.aof {
        Some(a) => StoreV { aof: Some(a + bytes), ..s },
        None => s,
    }
}

/// Drops every pair whose key is `k` from each index, in place.
pub fn indexes_remove_key(ixs: &mut Vec<NumIndex>, k: &Vec<u8>)
    ensures
        ixs_view(final(ixs)@) == idx_rm(ixs_view(old(ixs)@), k@),
{
    let ghost iv0 = ixs_view(ixs@);
    let mut i: usize = 0;
    while i < ixs.len()
        invariant
            i <= ixs@.len(),
            ixs@.len() == iv0.len(),
            forall|q: int|
                i <= q < iv0.len() ==> #[trigger] ixs_view(ixs@)[q] == iv0[q],
            forall|q: int|
                0 <= q < i ==> #[trigger] ixs_view(ixs@)[q] == (
                    iv0[q].0,
                    pairs_without(iv0[q].1, k@),
                ),
        decreases ixs.len() - i,
    {
        let ghost pre = ixs@;
        let ni = ixs.remove(i);
        let np = crate::index::pairs_without_build(&ni.pairs, k);
        ixs.insert(i, NumIndex { field: ni.field, pairs: np });
        i += 1;
        proof {
            assert(ixs@ =~= pre.update(i - 1, ixs@[i - 1]));
            assert(ixs@[i - 1].field@ == pre[i - 1].field@);
            assert(crate::index::pview(ixs@[i - 1].pairs@) == pairs_without(
                crate::index::pview(pre[i - 1].pairs@),
                k@,
            ));
            assert(ixs_view(pre)[i - 1] == iv0[i - 1]);
            assert forall|q: int| 0 <= q < ixs@.len() && q != i - 1 implies #[trigger] ixs_view(
                ixs@,
            )[q] == ixs_view(pre)[q] by {
                assert(ixs@[q] == pre[q]);
            }
            assert(ixs_view(ixs@)[i - 1] == (iv0[i - 1].0, pairs_without(iv0[i - 1].1, k@)));
        }
    }
    proof {
        assert(ixs_view(ixs@) =~= idx_rm(iv0, k@));
    }
}

/// Adds key `k` with document `b` to each index whose field the document
/// carries as an integer.
pub fn indexes_add(ixs: &mut Vec<NumIndex>, k: &Vec<u8>, b: &Vec<u8>)
    ensures
        ixs_view(final(ixs)@) == idx_add(ixs_view(old(ixs)@), k@, ValueV::Bytes(b@)),
{
    let ghost iv0 = ixs_view(ixs@);
    let mut i: usize = 0;
    while i < ixs.len()
        invariant
            i <= ixs@.len(),
            ixs@.len() == iv0.len(),
            forall|q: int|
                i <= q < iv0.len() ==> #[trigger] ixs_view(ixs@)[q] == iv0[q],
            forall|q: int|
                0 <= q < i ==> #[trigger] ixs_view(ixs@)[q] == (
                    iv0[q].0,
                    match json_top_int(b@, iv0[q].0) {
                        Some(n) => ins_pair(iv0[q].1, n, k@),
                        None => iv0[q].1,
                    },
                ),
        decreases ixs.len() - i,
    {
        let ghost pre = ixs@;
        let mut ni = ixs.remove(i);
        match crate::json_ops::top_int(b, &ni.field) {
            Some(n) => {
                crate::index::pairs_insert(&mut ni.pairs, n, crate::value::clone_bytes(k));
            },
            None => {},
        }
        ixs.insert(i, ni);
        i += 1;
        proof {
            assert(ixs@ =~= pre.update(i - 1, ixs@[i - 1]));
            assert(ixs_view(pre)[i - 1] == iv0[i - 1]);
            assert forall|q: int| 0 <= q < ixs@.len() && q != i - 1 implies #[trigger] ixs_view(
                ixs@,
            )[q] == ixs_view(pre)[q] by {
                assert(ixs@[q] == pre[q]);
            }
            assert(ixs_view(ixs@)[i - 1] == (
                iv0[i - 1].0,
                match json_top_int(b@, iv0[i - 1].0) {
                    Some(n) => ins_pair(iv0[i - 1].1, n, k@),
                    None => iv0[i - 1].1,
                },
            ));
        }
    }
    proof {
        assert(ixs_view(ixs@) =~= idx_add(iv0, k@, ValueV::Bytes(b@)));
    }
}

/// Moving a stored pair to the front, index untouched, keeps each index
/// consistent.
pub proof fn lemma_index_entry_touch(strs: Assoc, f: Seq<u8>, m: Seq<(i64, Seq<u8>)>, k: Seq<u8>, e: EntryV)
    requires
        index_entry_ok(strs, f, m),
        distinct_keys(strs),
        lookup(strs, k) == Some(e),
    ensures
        index_entry_ok(seq![(k, e)] + keyless(strs, k), f, m),
{
    let strs2 = seq![(k, e)] + keyless(strs, k);
    crate::lru::lemma_keyless_membership(strs, k);
    crate::lru::lemma_lookup_absent(strs, k);
    let kidx = choose|i: int| 0 <= i < strs.len() && (#[trigger] strs[i]).0 == k;
    crate::lru::lemma_lookup_at(strs, k, kidx);
    assert forall|pi: int| 0 <= pi < m.len() implies key_maps(strs2, (#[trigger] m[pi]).1, f, m[pi].0) by {
        assert(key_maps(strs, m[pi].1, f, m[pi].0));
        crate::lru::lemma_lookup_keyless(strs, k, m[pi].1);
        crate::lru::lemma_lookup_prepend(keyless(strs, k), k, e, m[pi].1);
    }
    assert forall|ki: int| 0 <= ki < strs2.len() implies str_indexed(strs2, m, f, ki) by {
        if ki == 0 {
            assert(strs[kidx].1 == e && strs[kidx].0 == k);
            assert(str_indexed(strs, m, f, kidx));
        } else {
            let j = choose|j: int|
                0 <= j < strs.len() && strs[j] == #[trigger] keyless(strs, k)[ki - 1] && strs[j].0
                    != k;
            assert(str_indexed(strs, m, f, j));
        }
    }
}

impl Store {
    /// Drops the entry under `k` when it has expired, queuing an expired
    /// notification and removing its index contributions.
    pub(crate) fn reap_str(&mut self, k: &Vec<u8>, now: u64)
        requires
            old(self).wf(),
            k@.len() <= 0xffff_ffff,
        ensures
            final(self).wf(),
            final(self)@ == sv_reap_str(old(self)@, k@, now),
    {
        let ghost s0 = self@;
        let expired = match self.strs.peek(k) {
            Some(e) => match e.deadline {
                Some(d) => now >= d,
                None => false,
            },
            None => false,
        };
        if expired {
            proof {
                lemma_state_remove(s0, k@);
            }
            let _popped = self.strs.pop(k);
            indexes_remove_key(&mut self.indexes, k);
            self.notifs.push(
                Notif { kind: 1, key: crate::value::clone_bytes(k), at_ms: now },
            );
            proof {
                assert(notifs_view(self.notifs@) =~= s0.notifs.push((1u8, k@, now)));
                assert(self@ =~= sv_reap_str(s0, k@, now));
                assert(sv_wf(self@));
            }
        } else {
            proof {
                assert(self@ =~= sv_reap_str(s0, k@, now));
            }
        }
    }

    /// Stores an entry under a string key: index contributions are
    /// rewritten, a full map evicts its least recently used pair.
    pub(crate) fn put_str(&mut self, k: Vec<u8>, e: Entry, now: u64)
        requires
            old(self).wf(),
            k@.len() <= 0xffff_ffff,
            entry_wf(e@),
            match e@.value {
                ValueV::Stream(x) => forall|j: int|
                    0 <= j < x.len() ==> (#[trigger] x[j]).0 < old(self).stream_ctr,
                _ => true,
            },
        ensures
            final(self).wf(),
            final(self)@ == sv_put_str(old(self)@, k@, e@, now),
    {
        let ghost s0 = self@;
        let ghost kv = k@;
        let ghost ev = e@;
        proof {
            lemma_state_remove(s0, kv);
        }
        let bopt: Option<Vec<u8>> = match &e.value {
            Value::Bytes(b) => Some(crate::value::clone_bytes(b)),
            _ => None,
        };
        let k2 = crate::value::clone_bytes(&k);
        indexes_remove_key(&mut self.indexes, &k);
        let evicted = self.strs.put(k, e);
        let ghost mid_ix = idx_rm(s0.indexes, kv);
        match evicted {
            Some(pair) => {
                let (vk, _ve) = pair;
                let ghost victim = s0.strs.last();
                proof {
                    // The victim was stored, so dropping it keeps every
                    // index consistent.
                    crate::lru::lemma_lookup_absent(s0.strs, kv);
                    crate::lru::lemma_keyless_absent(s0.strs, kv);
                    let mid = StoreV { indexes: mid_ix, ..s0 };
                    assert(sv_wf(mid)) by {
                        assert forall|fi: int|
                            0 <= fi < mid.indexes.len() implies index_entry_ok(
                            mid.strs,
                            (#[trigger] mid.indexes[fi]).0,
                            mid.indexes[fi].1,
                        ) by {
                            assert(index_entry_ok(keyless(s0.strs, kv), mid_ix[fi].0, mid_ix[fi].1));
                        }
                    }
                    lemma_state_remove(mid, victim.0);
                    crate::lru::lemma_keyless_remove_at(s0.strs, victim.0, s0.strs.len() - 1);
                    assert(keyless(s0.strs, victim.0) =~= s0.strs.drop_last());
                }
                indexes_remove_key(&mut self.indexes, &vk);
                self.notifs.push(Notif { kind: 2, key: vk, at_ms: now });
            },
            None => {},
        }
        match &bopt {
            Some(b) => indexes_add(&mut self.indexes, &k2, b),
            None => {},
        }
        proof {
            let target = sv_put_str(s0, kv, ev, now);
            if lookup(s0.strs, kv) is Some {
                lemma_state_insert(keyless(s0.strs, kv), mid_ix, kv, ev, s0.stream_ctr);
                assert(self@ =~= target);
            } else {
                crate::lru::lemma_lookup_absent(s0.strs, kv);
                crate::lru::lemma_keyless_absent(s0.strs, kv);
                if s0.strs.len() < s0.cap {
                    lemma_state_insert(s0.strs, mid_ix, kv, ev, s0.stream_ctr);
                    assert(self@ =~= target);
                } else {
                    let victim = s0.strs.last();
                    let strs_d = s0.strs.drop_last();
                    let mid = StoreV { indexes: mid_ix, ..s0 };
                    let ix2 = idx_rm(mid_ix, victim.0);
                    assert(keyless(s0.strs, victim.0) =~= strs_d);
                    assert forall|fi: int|
                        0 <= fi < ix2.len() implies index_entry_ok(
                        strs_d,
                        (#[trigger] ix2[fi]).0,
                        ix2[fi].1,
                    ) && pairs_keyfree(ix2[fi].1, kv) by {
                        assert(index_entry_ok(
                            keyless(mid.strs, victim.0),
                            ix2[fi].0,
                            ix2[fi].1,
                        ));
                        crate::index::lemma_without_shape(mid_ix[fi].1, victim.0);
                        assert forall|pi: int|
                            0 <= pi < ix2[fi].1.len() implies (#[trigger] ix2[fi].1[pi]).1
                            != kv by {
                            let j = choose|j: int|
                                0 <= j < mid_ix[fi].1.len() && mid_ix[fi].1[j]
                                    == ix2[fi].1[pi] && mid_ix[fi].1[j].1 != victim.0;
                            assert(pairs_keyfree(mid_ix[fi].1, kv));
                            assert(mid_ix[fi].1[j].1 != kv);
                        }
                    }
                    assert(lookup(strs_d, kv) is None) by {
                        assert(forall|i: int|
                            0 <= i < strs_d.len() ==> (#[trigger] strs_d[i]) == s0.strs[i]);
                        crate::lru::lemma_lookup_absent(strs_d, kv);
                    }
                    assert(distinct_keys(strs_d) && entries_wf(strs_d) && streams_bounded(
                        strs_d,
                        s0.stream_ctr,
                    )) by {
                        assert(forall|i: int|
                            0 <= i < strs_d.len() ==> (#[trigger] strs_d[i]) == s0.strs[i]);
                    }
                    lemma_state_insert(strs_d, ix2, kv, ev, s0.stream_ctr);
                    assert(notifs_view(self.notifs@) =~= s0.notifs.push((2u8, victim.0, now)));
                    assert(self@ =~= target);
                }
            }
            assert(sv_wf(self@));
        }
    }

    /// Reads a string key after lazy expiry: a hit moves the pair to the
    /// front and returns a copy of the entry.
    pub(crate) fn touch_str(&mut self, k: &Vec<u8>, now: u64) -> (r: Option<Entry>)
        requires
            old(self).wf(),
            k@.len() <= 0xffff_ffff,
        ensures
            final(self).wf(),
            final(self)@ == sv_touch_str(old(self)@, k@, now),
            match r {
                Some(e) => lookup(sv_reap_str(old(self)@, k@, now).strs, k@) == Some(e@),
                None => lookup(sv_reap_str(old(self)@, k@, now).strs, k@) is None,
            },
    {
        let ghost s0 = self@;
        self.reap_str(k, now);
        let ghost s1 = self@;
        let r = match self.strs.get(k) {
            Some(e) => Some(e.duplicate()),
            None => None,
        };
        proof {
            if r is Some {
                let ev = lookup(s1.strs, k@)->0;
                crate::lru::lemma_lookup_absent(s1.strs, k@);
                let kidx = choose|i: int| 0 <= i < s1.strs.len() && (#[trigger] s1.strs[i]).0 == k@;
                crate::lru::lemma_lookup_at(s1.strs, k@, kidx);
                lemma_entries_keyless(s1.strs, k@, s1.stream_ctr);
                lemma_entries_prepend(keyless(s1.strs, k@), k@, ev, s1.stream_ctr);
                assert forall|fi: int|
                    0 <= fi < s1.indexes.len() implies index_entry_ok(
                    seq![(k@, ev)] + keyless(s1.strs, k@),
                    (#[trigger] s1.indexes[fi]).0,
                    s1.indexes[fi].1,
                ) by {
                    lemma_index_entry_touch(s1.strs, s1.indexes[fi].0, s1.indexes[fi].1, k@, ev);
                }
                assert(self@ =~= sv_touch_str(s0, k@, now));
                assert(sv_wf(self@));
            } else {
                assert(self@ =~= sv_touch_str(s0, k@, now));
            }
        }
        r
    }

    /// Removes a string key after lazy expiry; returns whether a live
    /// entry was removed.
    pub(crate) fn remove_str_kernel(&mut self, k: &Vec<u8>, now: u64) -> (r: bool)
        requires
            old(self).wf(),
            k@.len() <= 0xffff_ffff,
        ensures
            final(self).wf(),
            final(self)@ == sv_remove_str(old(self)@, k@, now),
            r == (lookup(sv_reap_str(old(self)@, k@, now).strs, k@) is Some),
    {
        let ghost s0 = self@;
        self.reap_str(k, now);
        let ghost s1 = self@;
        proof {
            lemma_state_remove(s1, k@);
        }
        let popped = self.strs.pop(k);
        indexes_remove_key(&mut self.indexes, k);
        proof {
            assert(self@ =~= sv_remove_str(s0, k@, now));
            assert(sv_wf(self@));
        }
        popped.is_some()
    }

    /// Drops the entry under a binary key when it has expired.
    pub(crate) fn reap_bin(&mut self, k: &Vec<u8>, now: u64)
        requires
            old(self).wf(),
            k@.len() <= 0x7fff_fffe,
        ensures
            final(self).wf(),
            final(self)@ == sv_reap_bin(old(self)@, k@, now),
    {
        let ghost s0 = self@;
        let expired = match self.bins.peek(k) {
            Some(e) => match e.deadline {
                Some(d) => now >= d,
                None => false,
            },
            None => false,
        };
        if expired {
            proof {
                lemma_entries_keyless(s0.bins, k@, s0.stream_ctr);
                lemma_binkeys_keyless(s0.bins, k@);
                crate::frames::lemma_hex_len(k@);
            }
            let _popped = self.bins.pop(k);
            let name = crate::frames::make_bkey_name(k);
            self.notifs.push(Notif { kind: 1, key: name, at_ms: now });
            proof {
                assert(notifs_view(self.notifs@) =~= s0.notifs.push(
                    (1u8, crate::frames::bkey_name(k@), now),
                ));
                assert(self@ =~= sv_reap_bin(s0, k@, now));
                assert(sv_wf(self@));
            }
        } else {
            proof {
                assert(self@ =~= sv_reap_bin(s0, k@, now));
            }
        }
    }

    /// Stores an entry under a binary key.
    pub(crate) fn put_bin(&mut self, k: Vec<u8>, e: Entry, now: u64)
        requires
            old(self).wf(),
            k@.len() <= 0x7fff_fffe,
            entry_wf(e@),
            match e@.value {
                ValueV::Stream(x) => forall|j: int|
                    0 <= j < x.len() ==> (#[trigger] x[j]).0 < old(self).stream_ctr,
                _ => true,
            },
        ensures
            final(self).wf(),
            final(self)@ == sv_put_bin(old(self)@, k@, e@, now),
    {
        let ghost s0 = self@;
        let ghost kv = k@;
        let ghost ev = e@;
        let evicted = self.bins.put(k, e);
        match evicted {
            Some(pair) => {
                let (vk, _ve) = pair;
                let ghost victim = s0.bins.last();
                proof {
                    crate::frames::lemma_hex_len(vk@);
                    assert(entries_wf(s0.bins) && 0 <= s0.bins.len() - 1 < s0.bins.len());
                    assert(victim.0.len() <= 0xffff_ffff);
                }
                let name = crate::frames::make_bkey_name(&vk);
                self.notifs.push(Notif { kind: 2, key: name, at_ms: now });
            },
            None => {},
        }
        proof {
            crate::lru::lemma_lookup_absent(s0.bins, kv);
            if lookup(s0.bins, kv) is Some {
                lemma_entries_keyless(s0.bins, kv, s0.stream_ctr);
                lemma_binkeys_keyless(s0.bins, kv);
                lemma_entries_prepend(keyless(s0.bins, kv), kv, ev, s0.stream_ctr);
            } else if s0.bins.len() < s0.cap {
                crate::lru::lemma_keyless_absent(s0.bins, kv);
                lemma_entries_prepend(s0.bins, kv, ev, s0.stream_ctr);
            } else {
                let victim = s0.bins.last();
                let bins_d = s0.bins.drop_last();
                assert(forall|i: int|
                    0 <= i < bins_d.len() ==> (#[trigger] bins_d[i]) == s0.bins[i]);
                crate::lru::lemma_lookup_absent(bins_d, kv);
                assert(distinct_keys(bins_d) && entries_wf(bins_d) && streams_bounded(
                    bins_d,
                    s0.stream_ctr,
                ));
                lemma_entries_prepend(bins_d, kv, ev, s0.stream_ctr);
                crate::frames::lemma_hex_len(victim.0);
                assert(notifs_view(self.notifs@) =~= s0.notifs.push(
                    (2u8, crate::frames::bkey_name(victim.0), now),
                ));
            }
            assert(self@ =~= sv_put_bin(s0, kv, ev, now));
            assert(sv_wf(self@));
        }
    }

    /// Reads a binary key after lazy expiry: a hit moves the pair to the
    /// front and returns a copy of the entry.
    pub(crate) fn touch_bin(&mut self, k: &Vec<u8>, now: u64) -> (r: Option<Entry>)
        requires
            old(self).wf(),
            k@.len() <= 0x7fff_fffe,
        ensures
            final(self).wf(),
            final(self)@ == sv_touch_bin(old(self)@, k@, now),
            match r {
                Some(e) => lookup(sv_reap_bin(old(self)@, k@, now).bins, k@) == Some(e@),
                None => lookup(sv_reap_bin(old(self)@, k@, now).bins, k@) is None,
            },
    {
        let ghost s0 = self@;
        self.reap_bin(k, now);
        let ghost s1 = self@;
        let r = match self.bins.get(k) {
            Some(e) => Some(e.duplicate()),
            None => None,
        };
        proof {
            if r is Some {
                let ev = lookup(s1.bins, k@)->0;
                crate::lru::lemma_lookup_absent(s1.bins, k@);
                let kidx = choose|i: int| 0 <= i < s1.bins.len() && (#[trigger] s1.bins[i]).0 == k@;
                crate::lru::lemma_lookup_at(s1.bins, k@, kidx);
                lemma_entries_keyless(s1.bins, k@, s1.stream_ctr);
                lemma_binkeys_keyless(s1.bins, k@);
                lemma_entries_prepend(keyless(s1.bins, k@), k@, ev, s1.stream_ctr);
                assert(self@ =~= sv_touch_bin(s0, k@, now));
                assert(sv_wf(self@));
            } else {
                assert(self@ =~= sv_touch_bin(s0, k@, now));
            }
        }
        r
    }

    /// Removes a binary key after lazy expiry; returns whether a live
    /// entry was removed.
    pub(crate) fn remove_bin_kernel(&mut self, k: &Vec<u8>, now: u64) -> (r: bool)
        requires
            old(self).wf(),
            k@.len() <= 0x7fff_fffe,
        ensures
            final(self).wf(),
            final(self)@ == sv_remove_bin(old(self)@, k@, now),
            r == (lookup(sv_reap_bin(old(self)@, k@, now).bins, k@) is Some),
    {
        let ghost s0 = self@;
        self.reap_bin(k, now);
        let ghost s1 = self@;
        proof {
            lemma_entries_keyless(s1.bins, k@, s1.stream_ctr);
            lemma_binkeys_keyless(s1.bins, k@);
        }
        let popped = self.bins.pop(k);
        proof {
            assert(self@ =~= sv_remove_bin(s0, k@, now));
            assert(sv_wf(self@));
        }
        popped.is_some()
    }
}

} // verus!
