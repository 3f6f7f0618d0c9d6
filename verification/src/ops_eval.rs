//! The text command evaluator: whitespace-tokenized GET, SET, DEL,
//! JSON.GET and JSON.SET, case-insensitive verbs; unknown verbs or
//! missing arguments read as empty.
use vstd::prelude::*;

use crate::json::ws_len;
use crate::ops_bytes::{read_bytes_of, sv_remove, sv_set};
use crate::ops_index::tok_end;
use crate::ops_json::{json_base, sv_json_set};
use crate::store::{sv_reap_str, sv_touch_str, Store, StoreV};

verus! {

/// ASCII upper case.
pub open spec fn upper(c: u8) -> u8 {
    if 0x61 <= c <= 0x7a {
        (c - 0x20) as u8
    } else {
        c
    }
}

/// The token `[a, b)` spells the verb `w` (given upper case).
pub open spec fn is_verb(q: Seq<u8>, a: int, b: int, w: Seq<u8>) -> bool {
    b - a == w.len() && forall|j: int| 0 <= j < w.len() ==> upper(q[a + j]) == w[j]
}

/// The end of the input with trailing whitespace dropped, at least `a`.
pub open spec fn rtrim(q: Seq<u8>, a: int, b: int) -> int
    decreases b - a,
{
    if b > a && crate::json::is_ws(q[b - 1]) {
        rtrim(q, a, b - 1)
    } else {
        b
    }
}

pub open spec fn verb_get() -> Seq<u8> {
    seq![0x47u8, 0x45u8, 0x54u8]
}

pub open spec fn verb_set() -> Seq<u8> {
    seq![0x53u8, 0x45u8, 0x54u8]
}

pub open spec fn verb_del() -> Seq<u8> {
    seq![0x44u8, 0x45u8, 0x4cu8]
}

pub open spec fn verb_json_get() -> Seq<u8> {
    seq![0x4au8, 0x53u8, 0x4fu8, 0x4eu8, 0x2eu8, 0x47u8, 0x45u8, 0x54u8]
}

pub open spec fn verb_json_set() -> Seq<u8> {
    seq![0x4au8, 0x53u8, 0x4fu8, 0x4eu8, 0x2eu8, 0x53u8, 0x45u8, 0x54u8]
}

/// One evaluated command: the next state and the reply bytes.
pub open spec fn sv_eval(s: StoreV, cmd: Seq<u8>, now: u64) -> (StoreV, Seq<u8>) {
    let t1s = 0 + ws_len(cmd, 0) as int;
    let t1e = tok_end(cmd, t1s);
    let t2s = t1e + ws_len(cmd, t1e) as int;
    let t2e = tok_end(cmd, t2s);
    let t3s = t2e + ws_len(cmd, t2e) as int;
    let t3e = tok_end(cmd, t3s);
    if t1e <= t1s || t2e <= t2s {
        (s, Seq::empty())
    } else {
        let k = cmd.subrange(t2s, t2e);
        if is_verb(cmd, t1s, t1e, verb_get()) {
            let s1 = sv_touch_str(s, k, now);
            let out = match read_bytes_of(sv_reap_str(s, k, now).strs, k) {
                Some(b) => b,
                None => Seq::empty(),
            };
            (s1, out)
        } else if is_verb(cmd, t1s, t1e, verb_set()) {
            let vs = t2e + ws_len(cmd, t2e) as int;
            let v = cmd.subrange(vs, rtrim(cmd, vs, cmd.len() as int));
            (sv_set(s, k, v, now), Seq::empty())
        } else if is_verb(cmd, t1s, t1e, verb_del()) {
            let out: Seq<u8> = if crate::lru::lookup(sv_reap_str(s, k, now).strs, k) is Some {
                seq![0x31u8]
            } else {
                seq![0x30u8]
            };
            (sv_remove(s, k, now), out)
        } else if is_verb(cmd, t1s, t1e, verb_json_get()) {
            if t3e <= t3s {
                (s, Seq::empty())
            } else {
                let path = cmd.subrange(t3s, t3e);
                let s1 = sv_touch_str(s, k, now);
                let out = match json_base(sv_reap_str(s, k, now).strs, k) {
                    Some(b) => match crate::json::sp_json_get(b, path) {
                        Some(o) => o,
                        None => Seq::empty(),
                    },
                    None => Seq::empty(),
                };
                (s1, out)
            }
        } else if is_verb(cmd, t1s, t1e, verb_json_set()) {
            if t3e <= t3s {
                (s, Seq::empty())
            } else {
                let path = cmd.subrange(t3s, t3e);
                let ds = t3e + ws_len(cmd, t3e) as int;
                let doc = cmd.subrange(ds, rtrim(cmd, ds, cmd.len() as int));
                (sv_json_set(s, k, path, doc, now), Seq::empty())
            }
        } else {
            (s, Seq::empty())
        }
    }
}

/// Whether the token `[a, b)` spells the verb, executable.
fn verb_eq(q: &Vec<u8>, a: usize, b: usize, w: &Vec<u8>) -> (r: bool)
    requires
        a <= b <= q.len(),
    ensures
        r == is_verb(q@, a as int, b as int, w@),
{
    if b - a != w.len() {
        return false;
    }
    let mut j: usize = 0;
    while j < w.len()
        invariant
            j <= w@.len(),
            a + w@.len() == b <= q@.len(),
            forall|q2: int| 0 <= q2 < j ==> upper(q@[a + q2]) == w@[q2],
        decreases w.len() - j,
    {
        let c = q[a + j];
        let u = if 0x61 <= c && c <= 0x7a {
            c - 0x20
        } else {
            c
        };
        if u != w[j] {
            return false;
        }
        j += 1;
    }
    true
}

/// The end of the input with trailing whitespace dropped, executable.
fn rtrim_exec(q: &Vec<u8>, a: usize) -> (r: usize)
    requires
        a <= q.len(),
    ensures
        r == rtrim(q@, a as int, q@.len() as int),
        a <= r <= q.len(),
{
    let mut b = q.len();
    while b > a && (q[b - 1] == 0x20 || q[b - 1] == 0x09 || q[b - 1] == 0x0a || q[b - 1] == 0x0d)
        invariant
            a <= b <= q.len(),
            rtrim(q@, a as int, q@.len() as int) == rtrim(q@, a as int, b as int),
        decreases b,
    {
        b -= 1;
    }
    b
}

impl Store {
    /// Evaluates one text command. GET returns the value or empty; SET
    /// stores the trimmed rest of the line and returns empty; DEL
    /// returns `1` or `0`; JSON.GET and JSON.SET delegate to the JSON
    /// operations.
    pub fn eval(&mut self, cmd: &Vec<u8>, now: u64) -> (r: Vec<u8>)
        requires
            old(self).wf(),
            cmd@.len() <= 0xffff_ffff,
        ensures
            final(self).wf(),
            final(self)@ == sv_eval(old(self)@, cmd@, now).0,
            r@ == sv_eval(old(self)@, cmd@, now).1,
    {
        let t1s = crate::json_ops::skip_ws(cmd, 0);
        let t1e = crate::ops_index::scan_tok(cmd, t1s);
        let t2s = crate::json_ops::skip_ws(cmd, t1e);
        let t2e = crate::ops_index::scan_tok(cmd, t2s);
        let t3s = crate::json_ops::skip_ws(cmd, t2e);
        let t3e = crate::ops_index::scan_tok(cmd, t3s);
        if t1e <= t1s || t2e <= t2s {
            proof {
                assert(self@ =~= sv_eval(old(self)@, cmd@, now).0);
            }
            return Vec::new();
        }
        let k = crate::json_ops::sub_bytes(cmd, t2s, t2e);
        let vg = vec![0x47u8, 0x45u8, 0x54u8];
        let vs_ = vec![0x53u8, 0x45u8, 0x54u8];
        let vd = vec![0x44u8, 0x45u8, 0x4cu8];
        let vjg = vec![0x4au8, 0x53u8, 0x4fu8, 0x4eu8, 0x2eu8, 0x47u8, 0x45u8, 0x54u8];
        let vjs = vec![0x4au8, 0x53u8, 0x4fu8, 0x4eu8, 0x2eu8, 0x53u8, 0x45u8, 0x54u8];
        proof {
            assert(vg@ =~= verb_get());
            assert(vs_@ =~= verb_set());
            assert(vd@ =~= verb_del());
            assert(vjg@ =~= verb_json_get());
            assert(vjs@ =~= verb_json_set());
        }
        if verb_eq(cmd, t1s, t1e, &vg) {
            match self.get(&k, now) {
                Some(b) => b,
                None => Vec::new(),
            }
        } else if verb_eq(cmd, t1s, t1e, &vs_) {
            let ve = rtrim_exec(cmd, t3s);
            let v = crate::json_ops::sub_bytes(cmd, t3s, ve);
            self.set(k, v, now);
            Vec::new()
        } else if verb_eq(cmd, t1s, t1e, &vd) {
            let present = self.remove(&k, now);
            let mut out: Vec<u8> = Vec::new();
            if present {
                out.push(0x31);
            } else {
                out.push(0x30);
            }
            proof {
                if present {
                    assert(out@ =~= seq![0x31u8]);
                } else {
                    assert(out@ =~= seq![0x30u8]);
                }
            }
            out
        } else if verb_eq(cmd, t1s, t1e, &vjg) {
            if t3e <= t3s {
                proof {
                    assert(self@ =~= sv_eval(old(self)@, cmd@, now).0);
                }
                return Vec::new();
            }
            let path = crate::json_ops::sub_bytes(cmd, t3s, t3e);
            match self.json_get(&k, &path, now) {
                Some(b) => b,
                None => Vec::new(),
            }
        } else if verb_eq(cmd, t1s, t1e, &vjs) {
            if t3e <= t3s {
                proof {
                    assert(self@ =~= sv_eval(old(self)@, cmd@, now).0);
                }
                return Vec::new();
            }
            let path = crate::json_ops::sub_bytes(cmd, t3s, t3e);
            let ds = crate::json_ops::skip_ws(cmd, t3e);
            let de = rtrim_exec(cmd, ds);
            let doc = crate::json_ops::sub_bytes(cmd, ds, de);
            let _ = self.json_set(&k, &path, &doc, now);
            Vec::new()
        } else {
            proof {
                assert(self@ =~= sv_eval(old(self)@, cmd@, now).0);
            }
            Vec::new()
        }
    }
}

} // verus!
