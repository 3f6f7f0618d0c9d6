//! The JSON operations over stored byte values: read at a path, write at
//! a path with autovivification.
use vstd::prelude::*;

use crate::aof::{enc, RecE, RecV};
use crate::json::{sp_json_get, sp_json_set};
use crate::lru::lookup;
use crate::store::{sv_log, sv_put_str, sv_reap_str, sv_touch_str, Store, StoreV};
use crate::value::{clone_bytes, Entry, EntryV, Value, ValueV};

verus! {

/// The stored document bytes a JSON write starts from: a byte value's
/// payload; an absent key, or another variant (which a write replaces
/// entirely), starts from nothing.
pub open spec fn json_base(strs: crate::lru::Assoc, k: Seq<u8>) -> Option<Seq<u8>> {
    match lookup(strs, k) {
        Some(e) => match e.value {
            ValueV::Bytes(b) => Some(b),
            _ => None,
        },
        None => None,
    }
}

/// The new document a JSON write stores, when the write succeeds and
/// its serialization fits a frame.
pub open spec fn json_set_doc(s1strs: crate::lru::Assoc, k: Seq<u8>, path: Seq<u8>, val: Seq<u8>) -> Option<
    Seq<u8>,
> {
    match sp_json_set(json_base(s1strs, k), path, val) {
        Some(nb) => if nb.len() <= 0xffff_ffff {
            Some(nb)
        } else {
            None
        },
        None => None,
    }
}

/// A JSON write parses the stored document (or starts fresh), writes at
/// the path, stores the re-serialized document as a byte value keeping
/// the deadline, and logs it as a full write; a failed parse or an
/// oversized result changes nothing past the lazy expiry.
pub open spec fn sv_json_set(s: StoreV, k: Seq<u8>, path: Seq<u8>, val: Seq<u8>, now: u64) -> StoreV {
    let s1 = sv_reap_str(s, k, now);
    match json_set_doc(s1.strs, k, path, val) {
        Some(nb) => {
            let dl: Option<u64> = match lookup(s1.strs, k) {
                Some(e) => e.deadline,
                None => None,
            };
            sv_log(
                sv_put_str(s1, k, EntryV { value: ValueV::Bytes(nb), deadline: dl }, now),
                enc(RecV::SetS(k, nb)),
            )
        },
        None => s1,
    }
}

impl Store {
    /// Reads the node at `path` of the JSON document stored under `k`,
    /// re-serialized; a missing key, a non-document value, a bad path or
    /// a missing node read as `None`. The read marks the key most
    /// recently used.
    pub fn json_get(&mut self, k: &Vec<u8>, path: &Vec<u8>, now: u64) -> (r: Option<Vec<u8>>)
        requires
            old(self).wf(),
            k@.len() <= 0xffff_ffff,
        ensures
            final(self).wf(),
            final(self)@ == sv_touch_str(old(self)@, k@, now),
            ({
                let base = json_base(sv_reap_str(old(self)@, k@, now).strs, k@);
                match base {
                    Some(b) => match r {
                        Some(out) => sp_json_get(b, path@) == Some(out@),
                        None => sp_json_get(b, path@) is None,
                    },
                    None => r is None,
                }
            }),
    {
        match self.touch_str(k, now) {
            Some(e) => match e.value {
                Value::Bytes(b) => crate::json_ops::json_get_bytes(&b, path),
                _ => None,
            },
            None => None,
        }
    }

    /// Writes a JSON value at `path` under `k`; returns whether the
    /// write took. The stored document is replaced whole and the write
    /// is logged.
    pub fn json_set(&mut self, k: &Vec<u8>, path: &Vec<u8>, val: &Vec<u8>, now: u64) -> (r: bool)
        requires
            old(self).wf(),
            k@.len() <= 0xffff_ffff,
        ensures
            final(self).wf(),
            final(self)@ == sv_json_set(old(self)@, k@, path@, val@, now),
            r == (json_set_doc(sv_reap_str(old(self)@, k@, now).strs, k@, path@, val@)
                is Some),
    {
        self.reap_str(k, now);
        let ghost s1 = self@;
        let cur: Option<Entry> = match self.strs.peek(k) {
            Some(e) => Some(e.duplicate()),
            None => None,
        };
        proof {
            if lookup(s1.strs, k@) is Some {
                crate::lru::lemma_lookup_absent(s1.strs, k@);
                let kidx = choose|i: int| 0 <= i < s1.strs.len() && (#[trigger] s1.strs[i]).0 == k@;
                crate::lru::lemma_lookup_at(s1.strs, k@, kidx);
                assert(crate::store::entries_wf(s1.strs) && 0 <= kidx < s1.strs.len());
            }
        }
        let (base, dl): (Option<Vec<u8>>, Option<u64>) = match cur {
            Some(e) => {
                let dl = e.deadline;
                match e.value {
                    Value::Bytes(b) => (Some(b), dl),
                    _ => (None, dl),
                }
            },
            None => (None, None),
        };
        let nb = match &base {
            Some(b) => crate::json_ops::json_set_bytes(Some(b), path, val),
            None => crate::json_ops::json_set_bytes(None, path, val),
        };
        match nb {
            Some(nbv) => {
                if nbv.len() <= 0xffff_ffff {
                    let rec = RecE::SetS(clone_bytes(k), clone_bytes(&nbv));
                    self.put_str(
                        clone_bytes(k),
                        Entry { value: Value::Bytes(nbv), deadline: dl },
                        now,
                    );
                    self.log_record(&rec);
                    proof {
                        assert(self@ =~= sv_json_set(old(self)@, k@, path@, val@, now));
                    }
                    true
                } else {
                    proof {
                        assert(self@ =~= sv_json_set(old(self)@, k@, path@, val@, now));
                    }
                    false
                }
            },
            None => {
                proof {
                    assert(self@ =~= sv_json_set(old(self)@, k@, path@, val@, now));
                }
                false
            },
        }
    }
}

} // verus!
