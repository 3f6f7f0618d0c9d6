//! The periodic reaper pass and capacity changes.
use vstd::prelude::*;

use crate::lru::{keyless, Assoc};
use crate::store::{
    idx_rm, lemma_state_remove, sv_reap_bin, sv_reap_str, Store, StoreV,
};
use crate::value::{clone_bytes, is_expired};

verus! {

/// The keys of the expired entries, scan order.
pub open spec fn expired_keys(a: Assoc, now: u64) -> Seq<Seq<u8>>
    decreases a.len(),
{
    if a.len() == 0 {
        Seq::empty()
    } else if is_expired(a.last().1, now) {
        expired_keys(a.drop_last(), now) + seq![a.last().0]
    } else {
        expired_keys(a.drop_last(), now)
    }
}

/// Lazy expiry folded over a key list, string namespace.
pub open spec fn sv_reap_fold_str(s: StoreV, keys: Seq<Seq<u8>>, i: int, now: u64) -> StoreV
    decreases keys.len() - i,
{
    if i < 0 || i >= keys.len() {
        s
    } else {
        sv_reap_fold_str(sv_reap_str(s, keys[i], now), keys, i + 1, now)
    }
}

/// Lazy expiry folded over a key list, binary namespace.
pub open spec fn sv_reap_fold_bin(s: StoreV, keys: Seq<Seq<u8>>, i: int, now: u64) -> StoreV
    decreases keys.len() - i,
{
    if i < 0 || i >= keys.len() {
        s
    } else {
        sv_reap_fold_bin(sv_reap_bin(s, keys[i], now), keys, i + 1, now)
    }
}

/// One reaper pass: reap every expired string key, then every expired
/// binary key, each firing its expired notification.
pub open spec fn sv_reap_cycle(s: StoreV, now: u64) -> StoreV {
    let s2 = sv_reap_fold_str(s, expired_keys(s.strs, now), 0, now);
    sv_reap_fold_bin(s2, expired_keys(s.bins, now), 0, now)
}

/// Evicting the least recently used string entries until the size fits
/// `n`, each firing an evicted notification and index removal.
pub open spec fn sv_evict_excess_str(s: StoreV, n: int, now: u64) -> StoreV
    decreases s.strs.len(),
{
    if s.strs.len() <= n || s.strs.len() == 0 {
        s
    } else {
        let victim = s.strs.last();
        sv_evict_excess_str(
            StoreV {
                strs: s.strs.drop_last(),
                indexes: idx_rm(s.indexes, victim.0),
                notifs: s.notifs.push((2u8, victim.0, now)),
                ..s
            },
            n,
            now,
        )
    }
}

/// The binary counterpart; notifications carry the `b:` hex name.
pub open spec fn sv_evict_excess_bin(s: StoreV, n: int, now: u64) -> StoreV
    decreases s.bins.len(),
{
    if s.bins.len() <= n || s.bins.len() == 0 {
        s
    } else {
        let victim = s.bins.last();
        sv_evict_excess_bin(
            StoreV {
                bins: s.bins.drop_last(),
                notifs: s.notifs.push((2u8, crate::frames::bkey_name(victim.0), now)),
                ..s
            },
            n,
            now,
        )
    }
}

/// Changing the capacity: both namespaces shed their least recently
/// used entries down to the new bound.
pub open spec fn sv_set_max(s: StoreV, n: int, now: u64) -> StoreV {
    StoreV { cap: n as nat, ..sv_evict_excess_bin(sv_evict_excess_str(s, n, now), n, now) }
}

impl Store {
    /// One reaper pass over both namespaces: every expired entry is
    /// dropped and an expired notification queued, scan order.
    pub fn reap_expired(&mut self, now: u64)
        requires
            old(self).wf(),
        ensures
            final(self).wf(),
            final(self)@ == sv_reap_cycle(old(self)@, now),
    {
        let ghost s0 = self@;
        // gather the expired string keys
        let mut sk: Vec<Vec<u8>> = Vec::new();
        let mut i: usize = 0;
        proof {
            assert(crate::value::bytes_seq_view(sk@) =~= expired_keys(
                s0.strs.subrange(0, 0),
                now,
            ));
        }
        while i < self.strs.items.len()
            invariant
                i <= self.strs.items@.len(),
                self@ == s0,
                s0 == old(self)@,
                self.strs.wf(),
                self.bins.wf(),
                self.bins.cap == self.strs.cap,
                crate::store::sv_wf(s0),
                s0.strs.len() == self.strs.items@.len(),
                crate::value::bytes_seq_view(sk@) == expired_keys(
                    s0.strs.subrange(0, i as int),
                    now,
                ),
                forall|q: int|
                    0 <= q < sk@.len() ==> (#[trigger] sk@[q])@.len() <= 0xffff_ffff,
            decreases self.strs.items.len() - i,
        {
            proof {
                assert(s0.strs.subrange(0, i as int + 1).drop_last() =~= s0.strs.subrange(
                    0,
                    i as int,
                ));
                assert(s0.strs.subrange(0, i as int + 1).last() == s0.strs[i as int]);
                assert(s0.strs[i as int] == (
                    self.strs.items@[i as int].0@,
                    self.strs.items@[i as int].1@,
                ));
                assert(crate::store::entries_wf(s0.strs) && 0 <= (i as int) < s0.strs.len());
            }
            let item = &self.strs.items[i];
            let expired = match item.1.deadline {
                Some(d) => now >= d,
                None => false,
            };
            if expired {
                let ghost pre = sk@;
                sk.push(clone_bytes(&item.0));
                proof {
                    assert(crate::value::bytes_seq_view(sk@) =~= crate::value::bytes_seq_view(
                        pre,
                    ).push(s0.strs[i as int].0));
                }
            }
            i += 1;
        }
        proof {
            assert(s0.strs.subrange(0, s0.strs.len() as int) =~= s0.strs);
        }
        // reap them
        let ghost skv = crate::value::bytes_seq_view(sk@);
        let mut j: usize = 0;
        while j < sk.len()
            invariant
                j <= sk@.len(),
                self.wf(),
                skv == crate::value::bytes_seq_view(sk@),
                forall|q: int|
                    0 <= q < sk@.len() ==> (#[trigger] sk@[q])@.len() <= 0xffff_ffff,
                sv_reap_fold_str(s0, skv, 0, now) == sv_reap_fold_str(
                    self@,
                    skv,
                    j as int,
                    now,
                ),
                s0 == old(self)@,
                skv == expired_keys(s0.strs, now),
                self@.bins == s0.bins,
            decreases sk.len() - j,
        {
            let ghost pre = self@;
            self.reap_str(&sk[j], now);
            proof {
                assert(sk@[j as int]@ == skv[j as int]);
                assert(sv_reap_fold_str(pre, skv, j as int, now) == sv_reap_fold_str(
                    self@,
                    skv,
                    j as int + 1,
                    now,
                ));
            }
            j += 1;
        }
        let ghost s2 = self@;
        proof {
            assert(s2 == sv_reap_fold_str(s0, skv, 0, now));
        }
        // gather the expired binary keys
        let mut bk: Vec<Vec<u8>> = Vec::new();
        let mut i2: usize = 0;
        proof {
            assert(crate::value::bytes_seq_view(bk@) =~= expired_keys(
                s2.bins.subrange(0, 0),
                now,
            ));
        }
        while i2 < self.bins.items.len()
            invariant
                i2 <= self.bins.items@.len(),
                self@ == s2,
                s2 == sv_reap_fold_str(s0, skv, 0, now),
                skv == expired_keys(s0.strs, now),
                s0 == old(self)@,
                self.strs.wf(),
                self.bins.wf(),
                self.bins.cap == self.strs.cap,
                crate::store::sv_wf(s2),
                s2.bins.len() == self.bins.items@.len(),
                s2.bins == s0.bins,
                crate::value::bytes_seq_view(bk@) == expired_keys(
                    s2.bins.subrange(0, i2 as int),
                    now,
                ),
                forall|q: int|
                    0 <= q < bk@.len() ==> (#[trigger] bk@[q])@.len() <= 0x7fff_fffe,
            decreases self.bins.items.len() - i2,
        {
            proof {
                assert(s2.bins.subrange(0, i2 as int + 1).drop_last() =~= s2.bins.subrange(
                    0,
                    i2 as int,
                ));
                assert(s2.bins.subrange(0, i2 as int + 1).last() == s2.bins[i2 as int]);
                assert(s2.bins[i2 as int] == (
                    self.bins.items@[i2 as int].0@,
                    self.bins.items@[i2 as int].1@,
                ));
                assert(crate::store::bin_keys_wf(s2.bins) && 0 <= (i2 as int) < s2.bins.len());
            }
            let item = &self.bins.items[i2];
            let expired = match item.1.deadline {
                Some(d) => now >= d,
                None => false,
            };
            if expired {
                let ghost pre = bk@;
                bk.push(clone_bytes(&item.0));
                proof {
                    assert(crate::value::bytes_seq_view(bk@) =~= crate::value::bytes_seq_view(
                        pre,
                    ).push(s2.bins[i2 as int].0));
                }
            }
            i2 += 1;
        }
        proof {
            assert(s2.bins.subrange(0, s2.bins.len() as int) =~= s2.bins);
        }
        let ghost bkv = crate::value::bytes_seq_view(bk@);
        let mut j2: usize = 0;
        while j2 < bk.len()
            invariant
                j2 <= bk@.len(),
                self.wf(),
                bkv == crate::value::bytes_seq_view(bk@),
                forall|q: int|
                    0 <= q < bk@.len() ==> (#[trigger] bk@[q])@.len() <= 0x7fff_fffe,
                sv_reap_fold_bin(s2, bkv, 0, now) == sv_reap_fold_bin(
                    self@,
                    bkv,
                    j2 as int,
                    now,
                ),
                s2 == sv_reap_fold_str(s0, skv, 0, now),
                skv == expired_keys(s0.strs, now),
                bkv == expired_keys(s2.bins, now),
                s2.bins == s0.bins,
                s0 == old(self)@,
            decreases bk.len() - j2,
        {
            let ghost pre = self@;
            self.reap_bin(&bk[j2], now);
            proof {
                assert(bk@[j2 as int]@ == bkv[j2 as int]);
                assert(sv_reap_fold_bin(pre, bkv, j2 as int, now) == sv_reap_fold_bin(
                    self@,
                    bkv,
                    j2 as int + 1,
                    now,
                ));
            }
            j2 += 1;
        }
        proof {
            assert(self@ == sv_reap_cycle(s0, now));
        }
    }

    /// Changes the capacity of both namespaces; while a namespace is
    /// over the new bound its least recently used entry is evicted with
    /// a notification (and index removal for string keys).
    pub fn set_max_items(&mut self, n: usize, now: u64)
        requires
            old(self).wf(),
            1 <= n <= 0xffff_ffff,
        ensures
            final(self).wf(),
            final(self)@ == sv_set_max(old(self)@, n as int, now),
    {
        let ghost s0 = self@;
        while self.strs.items.len() > n
            invariant
                self.wf(),
                sv_evict_excess_str(s0, n as int, now) == sv_evict_excess_str(
                    self@,
                    n as int,
                    now,
                ),
                s0 == old(self)@,
                self@.bins == s0.bins,
                self@.cap == s0.cap,
            decreases self.strs.items.len(),
        {
            let ghost pre = self@;
            let last = self.strs.items.len() - 1;
            let vk = clone_bytes(&self.strs.items[last].0);
            proof {
                assert(pre.strs[last as int] == (
                    self.strs.items@[last as int].0@,
                    self.strs.items@[last as int].1@,
                ));
                assert(crate::store::entries_wf(pre.strs) && 0 <= (last as int)
                    < pre.strs.len());
                lemma_state_remove(pre, vk@);
                crate::lru::lemma_keyless_remove_at(pre.strs, vk@, last as int);
                assert(keyless(pre.strs, vk@) =~= pre.strs.drop_last());
            }
            let _ = self.strs.pop(&vk);
            crate::store::indexes_remove_key(&mut self.indexes, &vk);
            self.notifs.push(crate::store::Notif { kind: 2, key: vk, at_ms: now });
            proof {
                assert(crate::store::notifs_view(self.notifs@) =~= pre.notifs.push(
                    (2u8, pre.strs.last().0, now),
                ));
                assert(self@ =~= (StoreV {
                    strs: pre.strs.drop_last(),
                    indexes: idx_rm(pre.indexes, pre.strs.last().0),
                    notifs: pre.notifs.push((2u8, pre.strs.last().0, now)),
                    ..pre
                }));
                assert(crate::store::sv_wf(self@));
                assert(sv_evict_excess_str(pre, n as int, now) == sv_evict_excess_str(
                    self@,
                    n as int,
                    now,
                ));
            }
        }
        let ghost s2 = self@;
        proof {
            assert(s2 == sv_evict_excess_str(s0, n as int, now));
        }
        while self.bins.items.len() > n
            invariant
                self.wf(),
                sv_evict_excess_bin(s2, n as int, now) == sv_evict_excess_bin(
                    self@,
                    n as int,
                    now,
                ),
                s2 == sv_evict_excess_str(s0, n as int, now),
                s0 == old(self)@,
                self@.strs == s2.strs,
                self@.indexes == s2.indexes,
                self@.cap == s0.cap,
            decreases self.bins.items.len(),
        {
            let ghost pre = self@;
            let last = self.bins.items.len() - 1;
            let vk = clone_bytes(&self.bins.items[last].0);
            proof {
                assert(pre.bins[last as int] == (
                    self.bins.items@[last as int].0@,
                    self.bins.items@[last as int].1@,
                ));
                assert(crate::store::bin_keys_wf(pre.bins) && 0 <= (last as int)
                    < pre.bins.len());
                assert(crate::store::entries_wf(pre.bins) && 0 <= (last as int)
                    < pre.bins.len());
                crate::store::lemma_entries_keyless(pre.bins, vk@, pre.stream_ctr);
                crate::store::lemma_binkeys_keyless(pre.bins, vk@);
                crate::lru::lemma_keyless_remove_at(pre.bins, vk@, last as int);
                assert(keyless(pre.bins, vk@) =~= pre.bins.drop_last());
                crate::frames::lemma_hex_len(vk@);
            }
            let _ = self.bins.pop(&vk);
            let name = crate::frames::make_bkey_name(&vk);
            self.notifs.push(crate::store::Notif { kind: 2, key: name, at_ms: now });
            proof {
                assert(crate::store::notifs_view(self.notifs@) =~= pre.notifs.push(
                    (2u8, crate::frames::bkey_name(pre.bins.last().0), now),
                ));
                assert(self@ =~= (StoreV {
                    bins: pre.bins.drop_last(),
                    notifs: pre.notifs.push(
                        (2u8, crate::frames::bkey_name(pre.bins.last().0), now),
                    ),
                    ..pre
                }));
                assert(crate::store::sv_wf(self@));
                assert(sv_evict_excess_bin(pre, n as int, now) == sv_evict_excess_bin(
                    self@,
                    n as int,
                    now,
                ));
            }
        }
        self.strs.cap = n;
        self.bins.cap = n;
        proof {
            assert(self@ =~= sv_set_max(s0, n as int, now));
            assert(crate::store::sv_wf(self@));
        }
    }
}

} // verus!
