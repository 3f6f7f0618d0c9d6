//! The byte-value operations of both namespaces, the TTL operations, and
//! the lifecycle operations.
use vstd::prelude::*;

use crate::aof::{enc, rec_v, RecE, RecV};
use crate::lru::{lookup, LruMap};
use crate::store::{
    sv_log, sv_put_bin, sv_put_str, sv_reap_bin, sv_reap_str, sv_remove_bin, sv_remove_str,
    sv_touch_bin, sv_touch_str, Store, StoreV,
};
use crate::value::{Entry, EntryV, Value, ValueV};

verus! {

/// The empty engine: both namespaces empty with the given capacity, no
/// indexes, log disabled, subscriber ids from 1, stream ids from 1.
pub open spec fn sv_init(cap: nat) -> StoreV {
    StoreV {
        strs: Seq::empty(),
        bins: Seq::empty(),
        cap: cap,
        indexes: Seq::empty(),
        aof: None,
        notifs: Seq::empty(),
        subs: Seq::empty(),
        next_sub: 1,
        stream_ctr: 1,
    }
}

/// Deadline arithmetic: `now + ttl`, saturating.
pub open spec fn sat_add64(a: u64, b: u64) -> u64 {
    if a + b > u64::MAX {
        u64::MAX
    } else {
        (a + b) as u64
    }
}

/// Storing a byte value drops any former deadline.
pub open spec fn sv_set_core(s: StoreV, k: Seq<u8>, v: Seq<u8>, now: u64) -> StoreV {
    sv_put_str(
        sv_reap_str(s, k, now),
        k,
        EntryV { value: ValueV::Bytes(v), deadline: None },
        now,
    )
}

pub open spec fn sv_set(s: StoreV, k: Seq<u8>, v: Seq<u8>, now: u64) -> StoreV {
    sv_log(sv_set_core(s, k, v, now), enc(RecV::SetS(k, v)))
}

pub open spec fn sv_set_ttl_core(s: StoreV, k: Seq<u8>, v: Seq<u8>, ttl: u64, now: u64) -> StoreV {
    sv_put_str(
        sv_reap_str(s, k, now),
        k,
        EntryV { value: ValueV::Bytes(v), deadline: Some(sat_add64(now, ttl)) },
        now,
    )
}

pub open spec fn sv_set_ttl(s: StoreV, k: Seq<u8>, v: Seq<u8>, ttl: u64, now: u64) -> StoreV {
    sv_log(
        sv_log(sv_set_ttl_core(s, k, v, ttl, now), enc(RecV::SetS(k, v))),
        enc(RecV::Expire(k, ttl)),
    )
}

pub open spec fn sv_expire_core(s: StoreV, k: Seq<u8>, ttl: u64, now: u64) -> StoreV {
    let s1 = sv_reap_str(s, k, now);
    match lookup(s1.strs, k) {
        Some(e) => sv_put_str(
            s1,
            k,
            EntryV { value: e.value, deadline: Some(sat_add64(now, ttl)) },
            now,
        ),
        None => s1,
    }
}

pub open spec fn sv_expire(s: StoreV, k: Seq<u8>, ttl: u64, now: u64) -> StoreV {
    sv_log(sv_expire_core(s, k, ttl, now), enc(RecV::Expire(k, ttl)))
}

pub open spec fn sv_remove_core(s: StoreV, k: Seq<u8>, now: u64) -> StoreV {
    sv_remove_str(s, k, now)
}

pub open spec fn sv_remove(s: StoreV, k: Seq<u8>, now: u64) -> StoreV {
    sv_log(sv_remove_core(s, k, now), enc(RecV::Remove(k)))
}

pub open spec fn sv_set_b_core(s: StoreV, k: Seq<u8>, v: Seq<u8>, now: u64) -> StoreV {
    sv_put_bin(
        sv_reap_bin(s, k, now),
        k,
        EntryV { value: ValueV::Bytes(v), deadline: None },
        now,
    )
}

pub open spec fn sv_set_b(s: StoreV, k: Seq<u8>, v: Seq<u8>, now: u64) -> StoreV {
    sv_log(sv_set_b_core(s, k, v, now), enc(RecV::SetB(k, v)))
}

pub open spec fn sv_remove_b_core(s: StoreV, k: Seq<u8>, now: u64) -> StoreV {
    sv_remove_bin(s, k, now)
}

pub open spec fn sv_remove_b(s: StoreV, k: Seq<u8>, now: u64) -> StoreV {
    sv_log(sv_remove_b_core(s, k, now), enc(RecV::RemoveB(k)))
}

/// The byte payload a read of `k` returns in the reaped state `s1`:
/// present byte values only, any other variant reads as missing.
pub open spec fn read_bytes_of(s1strs: crate::lru::Assoc, k: Seq<u8>) -> Option<Seq<u8>> {
    match lookup(s1strs, k) {
        Some(e) => match e.value {
            ValueV::Bytes(b) => Some(b),
            _ => None,
        },
        None => None,
    }
}

impl Store {
    /// Creates the engine with the given capacity per namespace.
    pub fn new(max_items: usize) -> (r: Store)
        requires
            1 <= max_items <= 0xffff_ffff,
        ensures
            r.wf(),
            r@ == sv_init(max_items as nat),
    {
        let r = Store {
            strs: LruMap::new(max_items),
            bins: LruMap::new(max_items),
            indexes: Vec::new(),
            aof: None,
            notifs: Vec::new(),
            subs: Vec::new(),
            next_sub: 1,
            stream_ctr: 1,
        };
        proof {
            assert(r@ =~= sv_init(max_items as nat));
        }
        r
    }

    /// The capacity of each namespace.
    pub fn get_max_items(&self) -> (r: usize)
        ensures
            r as nat == self@.cap,
    {
        self.strs.cap
    }

    /// The number of stored entries over both namespaces, saturating.
    pub fn length(&self) -> (r: usize)
        ensures
            r == if self@.strs.len() + self@.bins.len() <= usize::MAX {
                self@.strs.len() + self@.bins.len()
            } else {
                usize::MAX as nat
            },
    {
        let a = self.strs.len();
        let b = self.bins.len();
        if usize::MAX - a < b {
            usize::MAX
        } else {
            a + b
        }
    }

    /// Appends one record to the log when it is enabled.
    pub(crate) fn log_record(&mut self, r: &RecE)
        requires
            old(self).wf(),
            crate::aof::rec_wf(rec_v(*r)),
        ensures
            final(self).wf(),
            final(self)@ == sv_log(old(self)@, enc(rec_v(*r))),
    {
        let ghost s0 = self@;
        match &mut self.aof {
            Some(a) => {
                crate::aof::encode_into(a, r);
            },
            None => {},
        }
        proof {
            assert(self@ =~= sv_log(s0, enc(rec_v(*r))));
        }
    }

    /// Stores a byte value under a string key and logs the write.
    pub fn set(&mut self, k: Vec<u8>, v: Vec<u8>, now: u64)
        requires
            old(self).wf(),
            k@.len() <= 0xffff_ffff,
            v@.len() <= 0xffff_ffff,
        ensures
            final(self).wf(),
            final(self)@ == sv_set(old(self)@, k@, v@, now),
    {
        let rec = RecE::SetS(crate::value::clone_bytes(&k), crate::value::clone_bytes(&v));
        self.reap_str(&k, now);
        self.put_str(k, Entry { value: Value::Bytes(v), deadline: None }, now);
        self.log_record(&rec);
    }

    /// Returns a copy of the byte value under a string key; the read
    /// marks the key most recently used.
    pub fn get(&mut self, k: &Vec<u8>, now: u64) -> (r: Option<Vec<u8>>)
        requires
            old(self).wf(),
            k@.len() <= 0xffff_ffff,
        ensures
            final(self).wf(),
            final(self)@ == sv_touch_str(old(self)@, k@, now),
            match r {
                Some(b) => read_bytes_of(sv_reap_str(old(self)@, k@, now).strs, k@) == Some(b@)
                    && b@.len() <= 0xffff_ffff,
                None => read_bytes_of(sv_reap_str(old(self)@, k@, now).strs, k@) is None,
            },
    {
        match self.touch_str(k, now) {
            Some(e) => {
                proof {
                    assert(crate::store::entries_wf(self@.strs));
                    assert(self@.strs[0] == (k@, e@));
                    assert(crate::value::entry_wf(e@));
                }
                match e.value {
                    Value::Bytes(b) => Some(b),
                    _ => None,
                }
            },
            None => None,
        }
    }

    /// Copies the byte value under a string key into the caller's
    /// buffer. Returns the bytes written, 0 for an empty value, -1 when
    /// the key reads as missing, and the negated required size when the
    /// buffer is too small.
    pub fn get_into_buffer(&mut self, k: &Vec<u8>, buf: &mut Vec<u8>, now: u64) -> (r: i64)
        requires
            old(self).wf(),
            k@.len() <= 0xffff_ffff,
        ensures
            final(self).wf(),
            final(self)@ == sv_touch_str(old(self)@, k@, now),
            ({
                let red = read_bytes_of(sv_reap_str(old(self)@, k@, now).strs, k@);
                match red {
                    None => r == -1 && final(buf)@ == old(buf)@,
                    Some(b) => if b.len() == 0 {
                        r == 0 && final(buf)@ == old(buf)@
                    } else if b.len() <= old(buf)@.len() {
                        r == b.len() && final(buf)@ == b + old(buf)@.skip(b.len() as int)
                    } else {
                        r == -(b.len() as int) && final(buf)@ == old(buf)@
                    },
                }
            }),
    {
        match self.get(k, now) {
            None => -1,
            Some(v) => {
                if v.len() == 0 {
                    0
                } else if v.len() <= buf.len() {
                    let mut i: usize = 0;
                    while i < v.len()
                        invariant
                            i <= v.len() <= buf.len(),
                            buf@.len() == old(buf)@.len(),
                            forall|q: int| 0 <= q < i ==> buf@[q] == v@[q],
                            forall|q: int| i <= q < buf@.len() ==> buf@[q] == old(buf)@[q],
                        decreases v.len() - i,
                    {
                        buf.set(i, v[i]);
                        i += 1;
                    }
                    proof {
                        assert(buf@ =~= v@ + old(buf)@.skip(v@.len() as int));
                    }
                    v.len() as i64
                } else {
                    -(v.len() as i64)
                }
            },
        }
    }

    /// Removes a string key; returns whether a live entry was removed.
    /// The removal is logged.
    pub fn remove(&mut self, k: &Vec<u8>, now: u64) -> (r: bool)
        requires
            old(self).wf(),
            k@.len() <= 0xffff_ffff,
        ensures
            final(self).wf(),
            final(self)@ == sv_remove(old(self)@, k@, now),
            r == (lookup(sv_reap_str(old(self)@, k@, now).strs, k@) is Some),
    {
        let rec = RecE::Remove(crate::value::clone_bytes(k));
        let r = self.remove_str_kernel(k, now);
        self.log_record(&rec);
        r
    }

    /// Stores a byte value under a binary key and logs the write.
    pub fn set_b(&mut self, k: Vec<u8>, v: Vec<u8>, now: u64)
        requires
            old(self).wf(),
            k@.len() <= 0x7fff_fffe,
            v@.len() <= 0xffff_ffff,
        ensures
            final(self).wf(),
            final(self)@ == sv_set_b(old(self)@, k@, v@, now),
    {
        let rec = RecE::SetB(crate::value::clone_bytes(&k), crate::value::clone_bytes(&v));
        self.reap_bin(&k, now);
        self.put_bin(k, Entry { value: Value::Bytes(v), deadline: None }, now);
        self.log_record(&rec);
    }

    /// Returns a copy of the byte value under a binary key.
    pub fn get_b(&mut self, k: &Vec<u8>, now: u64) -> (r: Option<Vec<u8>>)
        requires
            old(self).wf(),
            k@.len() <= 0x7fff_fffe,
        ensures
            final(self).wf(),
            final(self)@ == sv_touch_bin(old(self)@, k@, now),
            match r {
                Some(b) => read_bytes_of(sv_reap_bin(old(self)@, k@, now).bins, k@) == Some(b@)
                    && b@.len() <= 0xffff_ffff,
                None => read_bytes_of(sv_reap_bin(old(self)@, k@, now).bins, k@) is None,
            },
    {
        match self.touch_bin(k, now) {
            Some(e) => {
                proof {
                    assert(crate::store::entries_wf(self@.bins));
                    assert(self@.bins[0] == (k@, e@));
                    assert(crate::value::entry_wf(e@));
                }
                match e.value {
                    Value::Bytes(b) => Some(b),
                    _ => None,
                }
            },
            None => None,
        }
    }

    /// Copies the byte value under a binary key into the caller's
    /// buffer, with the same return convention as the string namespace.
    pub fn get_into_buffer_b(&mut self, k: &Vec<u8>, buf: &mut Vec<u8>, now: u64) -> (r: i64)
        requires
            old(self).wf(),
            k@.len() <= 0x7fff_fffe,
        ensures
            final(self).wf(),
            final(self)@ == sv_touch_bin(old(self)@, k@, now),
            ({
                let red = read_bytes_of(sv_reap_bin(old(self)@, k@, now).bins, k@);
                match red {
                    None => r == -1 && final(buf)@ == old(buf)@,
                    Some(b) => if b.len() == 0 {
                        r == 0 && final(buf)@ == old(buf)@
                    } else if b.len() <= old(buf)@.len() {
                        r == b.len() && final(buf)@ == b + old(buf)@.skip(b.len() as int)
                    } else {
                        r == -(b.len() as int) && final(buf)@ == old(buf)@
                    },
                }
            }),
    {
        match self.get_b(k, now) {
            None => -1,
            Some(v) => {
                if v.len() == 0 {
                    0
                } else if v.len() <= buf.len() {
                    let mut i: usize = 0;
                    while i < v.len()
                        invariant
                            i <= v.len() <= buf.len(),
                            buf@.len() == old(buf)@.len(),
                            forall|q: int| 0 <= q < i ==> buf@[q] == v@[q],
                            forall|q: int| i <= q < buf@.len() ==> buf@[q] == old(buf)@[q],
                        decreases v.len() - i,
                    {
                        buf.set(i, v[i]);
                        i += 1;
                    }
                    proof {
                        assert(buf@ =~= v@ + old(buf)@.skip(v@.len() as int));
                    }
                    v.len() as i64
                } else {
                    -(v.len() as i64)
                }
            },
        }
    }

    /// Removes a binary key; the removal is logged.
    pub fn remove_b(&mut self, k: &Vec<u8>, now: u64) -> (r: bool)
        requires
            old(self).wf(),
            k@.len() <= 0x7fff_fffe,
        ensures
            final(self).wf(),
            final(self)@ == sv_remove_b(old(self)@, k@, now),
            r == (lookup(sv_reap_bin(old(self)@, k@, now).bins, k@) is Some),
    {
        let rec = RecE::RemoveB(crate::value::clone_bytes(k));
        let r = self.remove_bin_kernel(k, now);
        self.log_record(&rec);
        r
    }

    /// Stores a byte value with a time to live; deadline is `now + ttl`
    /// saturating. The write and the deadline are logged.
    pub fn set_with_ttl(&mut self, k: Vec<u8>, v: Vec<u8>, ttl_ms: u64, now: u64)
        requires
            old(self).wf(),
            k@.len() <= 0xffff_ffff,
            v@.len() <= 0xffff_ffff,
        ensures
            final(self).wf(),
            final(self)@ == sv_set_ttl(old(self)@, k@, v@, ttl_ms, now),
    {
        let rec = RecE::SetS(crate::value::clone_bytes(&k), crate::value::clone_bytes(&v));
        let rec2 = RecE::Expire(crate::value::clone_bytes(&k), ttl_ms);
        let dl: u64 = if u64::MAX - now < ttl_ms {
            u64::MAX
        } else {
            now + ttl_ms
        };
        self.reap_str(&k, now);
        self.put_str(k, Entry { value: Value::Bytes(v), deadline: Some(dl) }, now);
        self.log_record(&rec);
        self.log_record(&rec2);
    }

    /// Sets the deadline of a present key to `now + ttl` saturating;
    /// returns whether the key was present. The deadline is logged.
    pub fn expire(&mut self, k: &Vec<u8>, ttl_ms: u64, now: u64) -> (r: bool)
        requires
            old(self).wf(),
            k@.len() <= 0xffff_ffff,
        ensures
            final(self).wf(),
            final(self)@ == sv_expire(old(self)@, k@, ttl_ms, now),
            r == (lookup(sv_reap_str(old(self)@, k@, now).strs, k@) is Some),
    {
        let rec = RecE::Expire(crate::value::clone_bytes(k), ttl_ms);
        self.reap_str(k, now);
        let ghost s1 = self@;
        let dl: u64 = if u64::MAX - now < ttl_ms {
            u64::MAX
        } else {
            now + ttl_ms
        };
        let cur: Option<Entry> = match self.strs.peek(k) {
            Some(e) => Some(e.duplicate()),
            None => None,
        };
        let r = match cur {
            Some(e) => {
                proof {
                    crate::lru::lemma_lookup_absent(s1.strs, k@);
                    let kidx = choose|i: int|
                        0 <= i < s1.strs.len() && (#[trigger] s1.strs[i]).0 == k@;
                    crate::lru::lemma_lookup_at(s1.strs, k@, kidx);
                    assert(crate::store::entries_wf(s1.strs) && 0 <= kidx < s1.strs.len());
                    assert(crate::store::streams_bounded(s1.strs, s1.stream_ctr) && 0 <= kidx
                        < s1.strs.len());
                }
                self.put_str(
                    crate::value::clone_bytes(k),
                    Entry { value: e.value, deadline: Some(dl) },
                    now,
                );
                true
            },
            None => false,
        };
        self.log_record(&rec);
        proof {
            assert(self@ =~= sv_expire(old(self)@, k@, ttl_ms, now));
        }
        r
    }

    /// The remaining life of a key: -2 when missing or already reaped,
    /// -1 when present without a deadline, otherwise the remaining
    /// milliseconds (clamped to the i64 range). The read marks the key
    /// most recently used.
    pub fn ttl(&mut self, k: &Vec<u8>, now: u64) -> (r: i64)
        requires
            old(self).wf(),
            k@.len() <= 0xffff_ffff,
        ensures
            final(self).wf(),
            final(self)@ == sv_touch_str(old(self)@, k@, now),
            ({
                let found = lookup(sv_reap_str(old(self)@, k@, now).strs, k@);
                match found {
                    None => r == -2,
                    Some(e) => match e.deadline {
                        None => r == -1,
                        Some(d) => r == if d <= now {
                            0int
                        } else if d - now <= i64::MAX {
                            d - now
                        } else {
                            i64::MAX as int
                        },
                    },
                }
            }),
    {
        match self.touch_str(k, now) {
            None => -2,
            Some(e) => match e.deadline {
                None => -1,
                Some(d) => {
                    if d <= now {
                        0
                    } else if d - now <= i64::MAX as u64 {
                        (d - now) as i64
                    } else {
                        i64::MAX
                    }
                },
            },
        }
    }
}

} // verus!
