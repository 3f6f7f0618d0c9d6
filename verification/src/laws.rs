//! The engine's laws: properties that relate several operations, stated
//! over the operation models and proved from them.
use vstd::prelude::*;

use crate::frames::pubsub_frame;
use crate::index::pair_in;
use crate::lru::{distinct_keys, keyless, lookup, Assoc};
use crate::ops_bytes::{read_bytes_of, sat_add64, sv_set, sv_set_b, sv_set_ttl};
use crate::ops_index::{cmp_ok, idx_lookup, scan_keys, sel_pairs, CmpOp};
use crate::ops_pubsub::{poll_result, sv_poll, sv_publish};
use crate::store::{
    index_entry_ok, key_maps, sv_reap_bin, sv_reap_str, sv_wf, StoreV, SubV,
};
use crate::aof::{enc, lemma_dec_enc, rec_wf, RecV};
use crate::ops_aof::{sv_apply, sv_replay};
use crate::value::{EntryV, ValueV};

verus! {

/// The concatenated encoding of a record sequence: the byte stream an
/// enabled log gathers over a session.
pub open spec fn enc_all(rs: Seq<RecV>) -> Seq<u8>
    decreases rs.len(),
{
    if rs.len() == 0 {
        Seq::empty()
    } else {
        enc(rs[0]) + enc_all(rs.drop_first())
    }
}

/// The effect of applying the records in order.
pub open spec fn apply_all(s: StoreV, rs: Seq<RecV>, now: u64) -> StoreV
    decreases rs.len(),
{
    if rs.len() == 0 {
        s
    } else {
        apply_all(sv_apply(s, rs[0], now), rs.drop_first(), now)
    }
}

proof fn lemma_enc_pos(r: RecV)
    ensures
        enc(r).len() >= 1,
{
    match r {
        RecV::SetS(k, v) => {},
        RecV::Remove(k) => {},
        RecV::Clear => {},
        RecV::Expire(k, t) => {},
        RecV::Hset(k, f, v) => {},
        RecV::Lpush(k, v) => {},
        RecV::Sadd(k, v) => {},
        RecV::Zadd(k, s2, m) => {},
        RecV::Xadd(k, id, p) => {},
        RecV::SetB(k, v) => {},
        RecV::RemoveB(k) => {},
    }
}

proof fn lemma_replay_suffix(s: StoreV, b: Seq<u8>, i: int, rs: Seq<RecV>, now: u64)
    requires
        forall|q: int| 0 <= q < rs.len() ==> rec_wf(#[trigger] rs[q]),
        0 <= i,
        i + enc_all(rs).len() == b.len(),
        b.subrange(i, b.len() as int) == enc_all(rs),
    ensures
        sv_replay(s, b, i, now) == apply_all(s, rs, now),
    decreases rs.len(),
{
    if rs.len() == 0 {
        assert(crate::aof::dec_at(b, i) is None);
    } else {
        let r0 = rs[0];
        let l0 = enc(r0).len() as int;
        lemma_enc_pos(r0);
        assert(enc_all(rs) == enc(r0) + enc_all(rs.drop_first()));
        assert(enc_all(rs).subrange(0, l0) =~= enc(r0));
        crate::aof::lemma_sub_seg(b, i, enc_all(rs), 0, enc(r0));
        lemma_dec_enc(b, i, r0);
        assert(b.subrange(i + l0, b.len() as int) =~= enc_all(rs.drop_first())) by {
            assert forall|q: int|
                0 <= q < enc_all(rs.drop_first()).len() implies b.subrange(
                i + l0,
                b.len() as int,
            )[q] == enc_all(rs.drop_first())[q] by {
                assert(b.subrange(i, b.len() as int)[l0 + q] == b[i + l0 + q]);
                assert(enc_all(rs)[l0 + q] == enc_all(rs.drop_first())[q]);
                assert(b.subrange(i + l0, b.len() as int)[q] == b[i + l0 + q]);
            }
        }
        assert(forall|q: int|
            0 <= q < rs.drop_first().len() ==> rec_wf(#[trigger] rs.drop_first()[q]));
        lemma_replay_suffix(sv_apply(s, r0, now), b, i + l0, rs.drop_first(), now);
    }
}

/// Replaying the log a session wrote reproduces the fold of the
/// session's record effects: the encoded stream decodes back to the
/// records, and applying them in order gives the same state the
/// operations built, TTL drift aside (replayed deadlines are computed
/// against the replay clock).
pub proof fn lemma_replay_round_trip(s: StoreV, rs: Seq<RecV>, now: u64)
    requires
        forall|q: int| 0 <= q < rs.len() ==> rec_wf(#[trigger] rs[q]),
    ensures
        sv_replay(s, enc_all(rs), 0, now) == apply_all(s, rs, now),
{
    assert(enc_all(rs).subrange(0, enc_all(rs).len() as int) =~= enc_all(rs));
    lemma_replay_suffix(s, enc_all(rs), 0, rs, now);
}

/// A read immediately after a write returns exactly the written bytes:
/// the write leaves the pair most recently used with no deadline, so no
/// later clock reading can reap it.
pub proof fn lemma_get_after_set(s: StoreV, k: Seq<u8>, v: Seq<u8>, now: u64, now2: u64)
    requires
        sv_wf(s),
    ensures
        read_bytes_of(sv_reap_str(sv_set(s, k, v, now), k, now2).strs, k) == Some(v),
{
    let e = EntryV { value: ValueV::Bytes(v), deadline: None };
    let s1 = sv_set(s, k, v, now);
    assert(s1.strs[0] == (k, e));
    crate::lru::lemma_lookup_prepend(s1.strs.drop_first(), k, e, k);
    assert(seq![(k, e)] + s1.strs.drop_first() =~= s1.strs);
    assert(lookup(s1.strs, k) == Some(e));
}

/// The binary namespace obeys the same law.
pub proof fn lemma_get_b_after_set_b(s: StoreV, k: Seq<u8>, v: Seq<u8>, now: u64, now2: u64)
    requires
        sv_wf(s),
    ensures
        read_bytes_of(sv_reap_bin(sv_set_b(s, k, v, now), k, now2).bins, k) == Some(v),
{
    let e = EntryV { value: ValueV::Bytes(v), deadline: None };
    let s1 = sv_set_b(s, k, v, now);
    assert(s1.bins[0] == (k, e));
    crate::lru::lemma_lookup_prepend(s1.bins.drop_first(), k, e, k);
    assert(seq![(k, e)] + s1.bins.drop_first() =~= s1.bins);
    assert(lookup(s1.bins, k) == Some(e));
}

/// After a write with a time to live and a clock reading past the
/// deadline, the key reads as missing and exactly one expired
/// notification for it is queued.
pub proof fn lemma_ttl_expires(s: StoreV, k: Seq<u8>, v: Seq<u8>, t: u64, now: u64, now2: u64)
    requires
        sv_wf(s),
        now2 >= sat_add64(now, t),
    ensures
        ({
            let s1 = sv_set_ttl(s, k, v, t, now);
            let s2 = sv_reap_str(s1, k, now2);
            &&& lookup(s2.strs, k) is None
            &&& s2.notifs == s1.notifs.push((1u8, k, now2))
        }),
{
    let e = EntryV { value: ValueV::Bytes(v), deadline: Some(sat_add64(now, t)) };
    let s1 = sv_set_ttl(s, k, v, t, now);
    assert(s1.strs[0] == (k, e));
    crate::lru::lemma_lookup_prepend(s1.strs.drop_first(), k, e, k);
    assert(seq![(k, e)] + s1.strs.drop_first() =~= s1.strs);
    assert(lookup(s1.strs, k) == Some(e));
    assert(crate::value::is_expired(e, now2));
    crate::lru::lemma_lookup_keyless(s1.strs, k, k);
}

/// A write of a fresh key into a full namespace keeps the size at the
/// capacity, keeps every entry but the least recently used one, and
/// queues exactly one evicted notification for the victim.
pub proof fn lemma_lru_eviction(s: StoreV, k: Seq<u8>, v: Seq<u8>, now: u64)
    requires
        sv_wf(s),
        lookup(s.strs, k) is None,
        s.strs.len() == s.cap,
    ensures
        ({
            let s1 = sv_set(s, k, v, now);
            let victim = s.strs.last();
            &&& s1.strs.len() == s.cap
            &&& s1.strs[0] == (k, EntryV { value: ValueV::Bytes(v), deadline: None })
            &&& forall|i: int| 1 <= i < s1.strs.len() ==> s1.strs[i] == s.strs[i - 1]
            &&& s1.notifs == s.notifs.push((2u8, victim.0, now))
        }),
{
    let s1 = sv_set(s, k, v, now);
    assert(s.cap >= 1);
    assert forall|i: int| 1 <= i < s1.strs.len() implies s1.strs[i] == s.strs[i - 1] by {
        assert(s1.strs[i] == s.strs.drop_last()[i - 1]);
    }
}

/// The contents of every registered index are exactly the stored
/// documents that carry its field as a top-level integer: each index
/// pair names a stored byte value whose document holds the number, and
/// each such stored document appears in the index.
pub proof fn lemma_index_consistent(s: StoreV, fi: int)
    requires
        sv_wf(s),
        0 <= fi < s.indexes.len(),
    ensures
        forall|pi: int|
            0 <= pi < s.indexes[fi].1.len() ==> key_maps(
                s.strs,
                (#[trigger] s.indexes[fi].1[pi]).1,
                s.indexes[fi].0,
                s.indexes[fi].1[pi].0,
            ),
        forall|ki: int|
            0 <= ki < s.strs.len() ==> crate::store::str_indexed(
                s.strs,
                s.indexes[fi].1,
                s.indexes[fi].0,
                ki,
            ),
{
    assert(index_entry_ok(s.strs, s.indexes[fi].0, s.indexes[fi].1));
}

/// Membership in an index range: a key is selected exactly when some
/// pair holds it with a matching number.
proof fn lemma_sel_mem(m: Seq<(i64, Seq<u8>)>, op: CmpOp, lit: i64, k: Seq<u8>)
    ensures
        sel_pairs(m, op, lit).contains(k) <==> exists|n: i64|
            pair_in(m, n, k) && cmp_ok(n, op, lit),
    decreases m.len(),
{
    if m.len() > 0 {
        lemma_sel_mem(m.drop_last(), op, lit, k);
        assert(forall|i: int|
            0 <= i < m.drop_last().len() ==> #[trigger] m.drop_last()[i] == m[i]);
        let rest = sel_pairs(m.drop_last(), op, lit);
        if exists|n: i64| pair_in(m, n, k) && cmp_ok(n, op, lit) {
            let n = choose|n: i64| pair_in(m, n, k) && cmp_ok(n, op, lit);
            let i = choose|i: int| 0 <= i < m.len() && m[i] == (n, k);
            if i < m.len() - 1 {
                assert(pair_in(m.drop_last(), n, k)) by {
                    assert(m.drop_last()[i] == (n, k));
                }
                assert(rest.contains(k));
                if cmp_ok(m.last().0, op, lit) {
                    let j = choose|j: int| 0 <= j < rest.len() && rest[j] == k;
                    assert((rest + seq![m.last().1])[j] == k);
                }
            } else {
                assert(m.last() == (n, k));
                assert((rest + seq![m.last().1]).last() == k);
            }
        }
        if sel_pairs(m, op, lit).contains(k) {
            let j = choose|j: int|
                0 <= j < sel_pairs(m, op, lit).len() && sel_pairs(m, op, lit)[j] == k;
            if cmp_ok(m.last().0, op, lit) && j == sel_pairs(m, op, lit).len() - 1 {
                assert(m.last().1 == k);
                assert(pair_in(m, m.last().0, k)) by {
                    assert(m[m.len() - 1] == (m.last().0, k));
                }
            } else {
                assert(rest[j] == k);
                assert(rest.contains(k));
                let n = choose|n: i64| pair_in(m.drop_last(), n, k) && cmp_ok(n, op, lit);
                let i = choose|i: int| 0 <= i < m.drop_last().len() && m.drop_last()[i] == (n, k);
                assert(m[i] == (n, k));
            }
        }
    }
}

/// Membership in a scan: a key matches exactly when some stored pair
/// holds it with a matching document.
proof fn lemma_scan_mem(strs: Assoc, f: Seq<u8>, op: CmpOp, lit: i64, k: Seq<u8>)
    ensures
        scan_keys(strs, f, op, lit).contains(k) <==> exists|ki: int|
            0 <= ki < strs.len() && (#[trigger] strs[ki]).0 == k && (match strs[ki].1.value {
                ValueV::Bytes(b) => match crate::json::json_top_int(b, f) {
                    Some(n) => cmp_ok(n, op, lit),
                    None => false,
                },
                _ => false,
            }),
    decreases strs.len(),
{
    if strs.len() > 0 {
        lemma_scan_mem(strs.drop_last(), f, op, lit, k);
        assert(forall|i: int|
            0 <= i < strs.drop_last().len() ==> #[trigger] strs.drop_last()[i] == strs[i]);
        let rest = scan_keys(strs.drop_last(), f, op, lit);
        let tail_hit = match strs.last().1.value {
            ValueV::Bytes(b) => match crate::json::json_top_int(b, f) {
                Some(n) => cmp_ok(n, op, lit),
                None => false,
            },
            _ => false,
        };
        if tail_hit {
            assert(scan_keys(strs, f, op, lit) == rest + seq![strs.last().0]);
            assert((rest + seq![strs.last().0]).last() == strs.last().0);
        }
        if scan_keys(strs, f, op, lit).contains(k) {
            let j = choose|j: int|
                0 <= j < scan_keys(strs, f, op, lit).len() && scan_keys(strs, f, op, lit)[j]
                    == k;
            if tail_hit && j == scan_keys(strs, f, op, lit).len() - 1 {
                assert(strs[strs.len() - 1].0 == k);
            } else {
                assert(rest[j] == k);
                assert(rest.contains(k));
            }
        }
        if exists|ki: int|
            0 <= ki < strs.len() && (#[trigger] strs[ki]).0 == k && (match strs[ki].1.value {
                ValueV::Bytes(b) => match crate::json::json_top_int(b, f) {
                    Some(n) => cmp_ok(n, op, lit),
                    None => false,
                },
                _ => false,
            }) {
            let ki = choose|ki: int|
                0 <= ki < strs.len() && (#[trigger] strs[ki]).0 == k && (match strs[ki].1.value {
                    ValueV::Bytes(b) => match crate::json::json_top_int(b, f) {
                        Some(n) => cmp_ok(n, op, lit),
                        None => false,
                    },
                    _ => false,
                });
            if ki < strs.len() - 1 {
                assert(strs.drop_last()[ki] == strs[ki]);
                assert(rest.contains(k));
                let j = choose|j: int| 0 <= j < rest.len() && rest[j] == k;
                if tail_hit {
                    assert((rest + seq![strs.last().0])[j] == k);
                }
            } else {
                assert(tail_hit);
            }
        }
    }
}

/// A find answered from an index selects the same set of keys as the
/// fallback scan for the same query.
pub proof fn lemma_find_index_matches_scan(s: StoreV, fi: int, op: CmpOp, lit: i64, k: Seq<u8>)
    requires
        sv_wf(s),
        0 <= fi < s.indexes.len(),
    ensures
        sel_pairs(s.indexes[fi].1, op, lit).contains(k) <==> scan_keys(
            s.strs,
            s.indexes[fi].0,
            op,
            lit,
        ).contains(k),
{
    let f = s.indexes[fi].0;
    let m = s.indexes[fi].1;
    assert(index_entry_ok(s.strs, f, m));
    lemma_sel_mem(m, op, lit, k);
    lemma_scan_mem(s.strs, f, op, lit, k);
    if sel_pairs(m, op, lit).contains(k) {
        let n = choose|n: i64| pair_in(m, n, k) && cmp_ok(n, op, lit);
        let pi = choose|pi: int| 0 <= pi < m.len() && m[pi] == (n, k);
        assert(key_maps(s.strs, m[pi].1, f, m[pi].0));
        crate::lru::lemma_lookup_absent(s.strs, k);
        let ki = choose|ki: int| 0 <= ki < s.strs.len() && (#[trigger] s.strs[ki]).0 == k;
        crate::lru::lemma_lookup_at(s.strs, k, ki);
    }
    if scan_keys(s.strs, f, op, lit).contains(k) {
        let ki = choose|ki: int|
            0 <= ki < s.strs.len() && (#[trigger] s.strs[ki]).0 == k && (match s.strs[ki].1.value {
                ValueV::Bytes(b) => match crate::json::json_top_int(b, f) {
                    Some(n) => cmp_ok(n, op, lit),
                    None => false,
                },
                _ => false,
            });
        assert(crate::store::str_indexed(s.strs, m, f, ki));
    }
}

/// The first pending message of the subscriber standing at `i`.
proof fn lemma_poll_result_at(subs: Seq<SubV>, id: u64, i: int)
    requires
        0 <= i < subs.len(),
        subs[i].id == id,
        forall|a: int, b: int|
            0 <= a < b < subs.len() ==> (#[trigger] subs[a]).id != (#[trigger] subs[b]).id,
    ensures
        poll_result(subs, id) == (if subs[i].queue.len() > 0 {
            Some(pubsub_frame(subs[i].chan, subs[i].queue[0]))
        } else {
            None
        }),
    decreases subs.len(),
{
    if i > 0 {
        assert(forall|q: int|
            0 <= q < subs.drop_first().len() ==> #[trigger] subs.drop_first()[q] == subs[q + 1]);
        lemma_poll_result_at(subs.drop_first(), id, i - 1);
    }
}

/// Publish then poll is first-in-first-out per subscriber: after two
/// publishes on the channel of a subscriber with an empty queue, the
/// first poll returns the first message and the next poll the second.
pub proof fn lemma_publish_poll_fifo(
    s: StoreV,
    chan: Seq<u8>,
    m1: Seq<u8>,
    m2: Seq<u8>,
    id: u64,
    i: int,
)
    requires
        sv_wf(s),
        0 <= i < s.subs.len(),
        s.subs[i].id == id,
        s.subs[i].chan == chan,
        s.subs[i].queue.len() == 0,
    ensures
        ({
            let s2 = sv_publish(sv_publish(s, chan, m1), chan, m2);
            &&& poll_result(s2.subs, id) == Some(pubsub_frame(chan, m1))
            &&& poll_result(sv_poll(s2, id).subs, id) == Some(pubsub_frame(chan, m2))
        }),
{
    let s1 = sv_publish(s, chan, m1);
    let s2 = sv_publish(s1, chan, m2);
    assert(s2.subs[i].queue =~= seq![m1, m2]);
    assert(s2.subs[i].id == id && s2.subs[i].chan == chan);
    assert forall|a: int, b: int|
        0 <= a < b < s2.subs.len() implies (#[trigger] s2.subs[a]).id != (
    #[trigger] s2.subs[b]).id by {
        assert(crate::store::subs_wf(s.subs, s.next_sub));
        assert(s.subs[a].id != s.subs[b].id);
    }
    lemma_poll_result_at(s2.subs, id, i);
    let s3 = sv_poll(s2, id);
    assert(s3.subs[i].queue =~= seq![m2]);
    assert forall|a: int, b: int|
        0 <= a < b < s3.subs.len() implies (#[trigger] s3.subs[a]).id != (
    #[trigger] s3.subs[b]).id by {
        assert(crate::store::subs_wf(s.subs, s.next_sub));
        assert(s.subs[a].id != s.subs[b].id);
    }
    lemma_poll_result_at(s3.subs, id, i);
}

} // verus!
